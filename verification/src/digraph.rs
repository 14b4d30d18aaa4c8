//! Directed graphs over the vertices `0..n`, given as adjacency lists, and
//! the facts about walks and cycles that the ranking code relies on.
use vstd::prelude::*;
use vstd::set_lib::*;

verus! {

/// `b` occurs in the successor list of `a`.
pub open spec fn adj_edge(adj: Seq<Seq<usize>>, a: int, b: int) -> bool {
    0 <= a < adj.len() && seq_has(adj[a], b)
}

/// `x` is an entry of `s`.
pub open spec fn seq_has(s: Seq<usize>, x: int) -> bool {
    exists|k: int| 0 <= k < s.len() && s[k] == x
}

/// Step `i` of the walk `p` follows an edge.
pub open spec fn path_step(adj: Seq<Seq<usize>>, p: Seq<int>, i: int) -> bool {
    adj_edge(adj, p[i], p[i + 1])
}

/// `p` is a walk of at least one edge.
pub open spec fn is_path(adj: Seq<Seq<usize>>, p: Seq<int>) -> bool {
    &&& p.len() >= 2
    &&& forall|i: int| 0 <= i < p.len() - 1 ==> #[trigger] path_step(adj, p, i)
}

/// No walk of at least one edge returns to its start.
pub open spec fn acyclic(adj: Seq<Seq<usize>>) -> bool {
    forall|p: Seq<int>| #[trigger] is_path(adj, p) ==> p[0] != p[p.len() - 1]
}

/// Every successor list only names vertices below `adj.len()`.
pub open spec fn adj_well_formed(adj: Seq<Seq<usize>>) -> bool {
    forall|a: int, k: int|
        0 <= a < adj.len() && 0 <= k < adj[a].len() ==> #[trigger] adj[a][k] < adj.len()
}

/// Every vertex of `s` has a predecessor in `s`.
pub open spec fn closed_backwards(adj: Seq<Seq<usize>>, s: Set<int>) -> bool {
    forall|v: int| #[trigger] s.contains(v) ==> exists|p: int| s.contains(p) && adj_edge(adj, p, v)
}

spec fn back_walk(adj: Seq<Seq<usize>>, s: Set<int>, x: int, k: nat) -> Seq<int>
    decreases k,
{
    if k == 0 {
        seq![x]
    } else {
        let w = back_walk(adj, s, x, (k - 1) as nat);
        w.push(choose|p: int| s.contains(p) && adj_edge(adj, p, w.last()))
    }
}

proof fn lemma_back_walk(adj: Seq<Seq<usize>>, s: Set<int>, x: int, k: nat)
    requires
        s.contains(x),
        closed_backwards(adj, s),
    ensures
        back_walk(adj, s, x, k).len() == k + 1,
        forall|i: int| 0 <= i <= k ==> s.contains(#[trigger] back_walk(adj, s, x, k)[i]),
        forall|i: int|
            0 <= i < k ==> adj_edge(adj, back_walk(adj, s, x, k)[i + 1], #[trigger] back_walk(adj, s, x, k)[i]),
    decreases k,
{
    if k > 0 {
        lemma_back_walk(adj, s, x, (k - 1) as nat);
        let w = back_walk(adj, s, x, (k - 1) as nat);
        assert(s.contains(w.last()));
    }
}

proof fn lemma_reversed_walk_is_path(adj: Seq<Seq<usize>>, w: Seq<int>, i: int, j: int)
    requires
        0 <= i < j < w.len(),
        forall|t: int| 0 <= t < w.len() - 1 ==> adj_edge(adj, w[t + 1], #[trigger] w[t]),
    ensures
        is_path(adj, w.subrange(i, j + 1).reverse()),
{
    let q = w.subrange(i, j + 1).reverse();
    assert forall|t: int| 0 <= t < q.len() - 1 implies #[trigger] path_step(adj, q, t) by {
        assert(q[t] == w[j - t]);
        assert(q[t + 1] == w[j - t - 1]);
        assert(adj_edge(adj, w[(j - t - 1) + 1], w[j - t - 1]));
    }
}

/// A sequence longer than `m` whose entries lie in `0..m` repeats an entry.
pub proof fn lemma_pigeonhole(w: Seq<int>, m: int)
    requires
        0 <= m < w.len(),
        forall|i: int| 0 <= i < w.len() ==> 0 <= #[trigger] w[i] < m,
    ensures
        exists|i: int, j: int| 0 <= i < j < w.len() && w[i] == w[j],
{
    if w.no_duplicates() {
        w.unique_seq_to_set();
        lemma_int_range(0, m);
        assert(w.to_set().subset_of(set_int_range(0, m)));
        lemma_len_subset(w.to_set(), set_int_range(0, m));
        assert(false);
    }
    let (i, j) = choose|i: int, j: int| 0 <= i < w.len() && 0 <= j < w.len() && i != j && w[i] == w[j];
    if i < j {
        assert(w[i] == w[j]);
    } else {
        assert(w[j] == w[i]);
    }
}

/// In a graph without cycles, every nonempty set of vertices has a member
/// with no predecessor inside the set.
#[verifier::spinoff_prover]
pub proof fn lemma_acyclic_has_source(adj: Seq<Seq<usize>>, s: Set<int>, x: int)
    requires
        acyclic(adj),
        s.contains(x),
        forall|v: int| #[trigger] s.contains(v) ==> 0 <= v < adj.len(),
    ensures
        !closed_backwards(adj, s),
{
    if closed_backwards(adj, s) {
        let m = adj.len() as int;
        lemma_back_walk(adj, s, x, m as nat);
        let w = back_walk(adj, s, x, m as nat);
        assert forall|i: int| 0 <= i < w.len() implies 0 <= #[trigger] w[i] < m by {
            assert(s.contains(w[i]));
        }
        lemma_pigeonhole(w, m);
        let (i, j) = choose|i: int, j: int| 0 <= i < j < w.len() && w[i] == w[j];
        lemma_reversed_walk_is_path(adj, w, i, j);
        let q = w.subrange(i, j + 1).reverse();
        assert(q[0] == w[j]);
        assert(q[q.len() - 1] == w[i]);
    }
}


/// `p` is a walk: one vertex, or vertices each joined to the next by an
/// edge.
pub open spec fn is_walk(adj: Seq<Seq<usize>>, p: Seq<int>) -> bool {
    &&& p.len() >= 1
    &&& forall|i: int| 0 <= i < p.len() - 1 ==> #[trigger] path_step(adj, p, i)
}

/// `b` is reached from `a` by following edges (every vertex reaches
/// itself).
pub open spec fn reaches(adj: Seq<Seq<usize>>, a: int, b: int) -> bool {
    exists|p: Seq<int>| #[trigger] is_walk(adj, p) && p[0] == a && p[p.len() - 1] == b
}

pub proof fn lemma_reaches_refl(adj: Seq<Seq<usize>>, a: int)
    ensures
        reaches(adj, a, a),
{
    let p = seq![a];
    assert(is_walk(adj, p));
}

pub proof fn lemma_reaches_edge(adj: Seq<Seq<usize>>, a: int, b: int)
    requires
        adj_edge(adj, a, b),
    ensures
        reaches(adj, a, b),
{
    let p = seq![a, b];
    assert(path_step(adj, p, 0));
    assert(is_walk(adj, p));
}

pub proof fn lemma_reaches_trans(adj: Seq<Seq<usize>>, a: int, b: int, c: int)
    requires
        reaches(adj, a, b),
        reaches(adj, b, c),
    ensures
        reaches(adj, a, c),
{
    let p = choose|p: Seq<int>| #[trigger] is_walk(adj, p) && p[0] == a && p[p.len() - 1] == b;
    let q = choose|q: Seq<int>| #[trigger] is_walk(adj, q) && q[0] == b && q[q.len() - 1] == c;
    let r = p + q.skip(1);
    assert forall|i: int| 0 <= i < r.len() - 1 implies #[trigger] path_step(adj, r, i) by {
        if i < p.len() - 1 {
            assert(path_step(adj, p, i));
        } else if i == p.len() - 1 {
            assert(r[i] == b);
            if q.len() >= 2 {
                assert(path_step(adj, q, 0));
                assert(r[i + 1] == q[1]);
            }
        } else {
            let j = i - p.len() + 1;
            assert(path_step(adj, q, j));
            assert(r[i] == q[j]);
            assert(r[i + 1] == q[j + 1]);
        }
    }
    assert(is_walk(adj, r));
    if q.len() == 1 {
        assert(r =~= p);
    } else {
        assert(r[r.len() - 1] == q[q.len() - 1]);
    }
}

/// `x` is finished: it occurs in the finishing list `fin`.
pub open spec fn finished(fin: Seq<usize>, x: int) -> bool {
    seq_has(fin, x)
}

/// `w` finishes after `y`.
pub open spec fn finishes_after(fin: Seq<usize>, w: int, y: int) -> bool {
    exists|i: int, j: int| 0 <= j < i < fin.len() && fin[i] == w && fin[j] == y
}

/// `a` and `b` reach each other.
pub open spec fn mutual(adj: Seq<Seq<usize>>, a: int, b: int) -> bool {
    reaches(adj, a, b) && reaches(adj, b, a)
}

/// The state of a depth-first search: `fin` lists the finished vertices,
/// `stack` the vertices being searched from (each reaching the later ones),
/// `visited` marks exactly these two; a finished vertex has all its
/// successors visited; and whenever a finished `x` reaches a `y` that does
/// not reach back, some vertex mutually reachable with `x` is still on the
/// stack, or finished after a finished `y`.
pub open spec fn dfs_state_ok(adj: Seq<Seq<usize>>, fin: Seq<usize>, visited: Seq<bool>, stack: Seq<int>) -> bool {
    &&& adj_well_formed(adj)
    &&& adj.len() <= usize::MAX
    &&& visited.len() == adj.len()
    &&& fin.no_duplicates()
    &&& stack.no_duplicates()
    &&& forall|k: int| 0 <= k < fin.len() ==> #[trigger] fin[k] < adj.len()
    &&& forall|k: int| 0 <= k < stack.len() ==> 0 <= #[trigger] stack[k] < adj.len()
    &&& forall|v: int| 0 <= v < adj.len() ==> (#[trigger] visited[v] <==> (finished(fin, v) || stack.contains(v)))
    &&& forall|v: int| #[trigger] stack.contains(v) ==> !finished(fin, v)
    &&& forall|x: int, y: int| #[trigger] finished(fin, x) && #[trigger] adj_edge(adj, x, y) ==> visited[y]
    &&& forall|i: int, j: int| 0 <= i < j < stack.len() ==> reaches(adj, #[trigger] stack[i], #[trigger] stack[j])
    &&& forall|x: int, y: int|
        #![trigger finished(fin, x), reaches(adj, x, y)]
        finished(fin, x) && reaches(adj, x, y) && !reaches(adj, y, x) ==> exists|w: int|
            #![trigger mutual(adj, x, w)]
            mutual(adj, x, w) && (stack.contains(w) || (finished(fin, y) && finishes_after(fin, w, y)))
}

/// The tail of a walk is a walk, and a walk joins its ends.
pub proof fn lemma_walk_parts(adj: Seq<Seq<usize>>, p: Seq<int>)
    requires
        is_walk(adj, p),
    ensures
        reaches(adj, p[0], p[p.len() - 1]),
        p.len() >= 2 ==> is_walk(adj, p.skip(1)) && adj_edge(adj, p[0], p[1]),
{
    if p.len() >= 2 {
        let q = p.skip(1);
        assert forall|i: int| 0 <= i < q.len() - 1 implies #[trigger] path_step(adj, q, i) by {
            assert(path_step(adj, p, i + 1));
        }
        assert(path_step(adj, p, 0));
    }
}

/// Every vertex of a walk is reached from its start and reaches its end.
pub proof fn lemma_walk_split(adj: Seq<Seq<usize>>, p: Seq<int>, i: int)
    requires
        is_walk(adj, p),
        0 <= i < p.len(),
    ensures
        reaches(adj, p[0], p[i]),
        reaches(adj, p[i], p[p.len() - 1]),
{
    let a = p.subrange(0, i + 1);
    let b = p.subrange(i, p.len() as int);
    assert forall|t: int| 0 <= t < a.len() - 1 implies #[trigger] path_step(adj, a, t) by {
        assert(path_step(adj, p, t));
    }
    assert forall|t: int| 0 <= t < b.len() - 1 implies #[trigger] path_step(adj, b, t) by {
        assert(path_step(adj, p, t + i));
    }
    assert(is_walk(adj, a));
    assert(is_walk(adj, b));
}

/// A walk from a finished vertex to an unvisited one passes through a
/// visited vertex that is not finished, when finished vertices have only
/// visited successors.
pub proof fn lemma_escape(adj: Seq<Seq<usize>>, fin: Seq<usize>, visited: Seq<bool>, p: Seq<int>)
    requires
        is_walk(adj, p),
        visited.len() == adj.len(),
        finished(fin, p[0]),
        forall|v: int| #[trigger] finished(fin, v) ==> 0 <= v < adj.len() && visited[v],
        0 <= p[p.len() - 1] < adj.len(),
        !visited[p[p.len() - 1]],
        forall|x: int, y: int| #[trigger] finished(fin, x) && #[trigger] adj_edge(adj, x, y) ==> visited[y],
    ensures
        exists|g: int|
            #![trigger visited[g]]
            visited[g] && !finished(fin, g) && reaches(adj, p[0], g) && reaches(adj, g, p[p.len() - 1]),
    decreases p.len(),
{
    lemma_walk_parts(adj, p);
    assert(p.len() >= 2) by {
        if p.len() < 2 {
            assert(p[0] == p[p.len() - 1]);
        }
    }
    let q = p.skip(1);
    assert(visited[p[1]]);
    lemma_walk_parts(adj, q);
    assert(q[q.len() - 1] == p[p.len() - 1]);
    if !finished(fin, p[1]) {
        lemma_reaches_edge(adj, p[0], p[1]);
        assert(visited[p[1]] && !finished(fin, p[1]) && reaches(adj, p[0], p[1]) && reaches(adj, p[1], p[p.len() - 1]));
    } else {
        lemma_escape(adj, fin, visited, q);
        let g = choose|g: int|
            #![trigger visited[g]]
            visited[g] && !finished(fin, g) && reaches(adj, q[0], g) && reaches(adj, g, q[q.len() - 1]);
        lemma_reaches_edge(adj, p[0], p[1]);
        lemma_reaches_trans(adj, p[0], p[1], g);
        assert(visited[g] && !finished(fin, g) && reaches(adj, p[0], g) && reaches(adj, g, p[p.len() - 1]));
    }
}

/// Starting the search from an unvisited successor of the vertex last put
/// on the stack keeps the state sound.
pub proof fn lemma_push_gray(adj: Seq<Seq<usize>>, fin: Seq<usize>, visited: Seq<bool>, stack: Seq<int>, node: int)
    requires
        dfs_state_ok(adj, fin, visited, stack),
        0 <= node < adj.len(),
        !visited[node],
        stack.len() > 0 ==> adj_edge(adj, stack[stack.len() - 1], node),
    ensures
        dfs_state_ok(adj, fin, visited.update(node, true), stack.push(node)),
{
    let v2 = visited.update(node, true);
    let s2 = stack.push(node);
    assert forall|v: int| 0 <= v < adj.len() implies (#[trigger] v2[v] <==> (finished(fin, v) || s2.contains(v))) by {
        if v == node {
            assert(s2[stack.len() as int] == node);
        } else if stack.contains(v) {
            let k = choose|k: int| 0 <= k < stack.len() && stack[k] == v;
            assert(s2[k] == v);
        } else if s2.contains(v) {
            let k = choose|k: int| 0 <= k < s2.len() && s2[k] == v;
            assert(stack[k] == v);
        }
    }
    assert forall|v: int| #[trigger] s2.contains(v) implies !finished(fin, v) by {
        let k = choose|k: int| 0 <= k < s2.len() && s2[k] == v;
        if k < stack.len() {
            assert(stack[k] == v);
            assert(stack.contains(v));
        } else {
            assert(v == node);
        }
    }
    assert forall|i: int, j: int| 0 <= i < j < s2.len() implies reaches(adj, #[trigger] s2[i], #[trigger] s2[j]) by {
        if j < stack.len() {
            assert(s2[i] == stack[i] && s2[j] == stack[j]);
        } else {
            let top = stack[stack.len() - 1];
            lemma_reaches_edge(adj, top, node);
            if i < stack.len() - 1 {
                assert(reaches(adj, stack[i], stack[stack.len() - 1]));
                lemma_reaches_trans(adj, stack[i], top, node);
            }
            assert(s2[i] == stack[i]);
        }
    }
    assert forall|x: int, y: int|
        #![trigger finished(fin, x), reaches(adj, x, y)]
        finished(fin, x) && reaches(adj, x, y) && !reaches(adj, y, x) implies exists|w: int|
            #![trigger mutual(adj, x, w)]
            mutual(adj, x, w) && (s2.contains(w) || (finished(fin, y) && finishes_after(fin, w, y))) by {
        let w = choose|w: int|
            #![trigger mutual(adj, x, w)]
            mutual(adj, x, w) && (stack.contains(w) || (finished(fin, y) && finishes_after(fin, w, y)));
        if stack.contains(w) {
            let k = choose|k: int| 0 <= k < stack.len() && stack[k] == w;
            assert(s2[k] == w);
        }
    }
}

/// Walks from a vertex stay among the vertices.
pub proof fn lemma_reaches_range(adj: Seq<Seq<usize>>, a: int, b: int)
    requires
        adj_well_formed(adj),
        0 <= a < adj.len(),
        reaches(adj, a, b),
    ensures
        0 <= b < adj.len(),
{
    let p = choose|p: Seq<int>| #[trigger] is_walk(adj, p) && p[0] == a && p[p.len() - 1] == b;
    if p.len() >= 2 {
        assert(path_step(adj, p, p.len() - 2));
        let row = adj[p[p.len() - 2]];
        let k = choose|k: int| 0 <= k < row.len() && #[trigger] row[k] == p[p.len() - 1];
    }
}

/// What finishing the vertex on top of the stack changes.
proof fn lemma_finish_facts(adj: Seq<Seq<usize>>, fin: Seq<usize>, visited: Seq<bool>, stack: Seq<int>, node: int)
    requires
        dfs_state_ok(adj, fin, visited, stack.push(node)),
        forall|y: int| #[trigger] adj_edge(adj, node, y) ==> visited[y],
    ensures
        0 <= node < adj.len(),
        !finished(fin, node),
        forall|v: int| #[trigger] finished(fin.push(node as usize), v) <==> (finished(fin, v) || v == node),
        forall|v: int| #[trigger] stack.contains(v) ==> stack.push(node).contains(v) && v != node,
        forall|v: int| #[trigger] stack.push(node).contains(v) ==> stack.contains(v) || v == node,
        forall|x: int, y: int| #[trigger] finished(fin.push(node as usize), x) && #[trigger] adj_edge(adj, x, y) ==> visited[y],
        forall|v: int| #[trigger] finished(fin.push(node as usize), v) ==> 0 <= v < adj.len() && visited[v],
        forall|k: int| 0 <= k < stack.len() ==> reaches(adj, #[trigger] stack[k], node),
{
    let s1 = stack.push(node);
    assert(s1[stack.len() as int] == node);
    assert(s1.contains(node));
    assert(0 <= node < adj.len());
    let f2 = fin.push(node as usize);
    assert forall|v: int| #[trigger] finished(f2, v) <==> (finished(fin, v) || v == node) by {
        if finished(f2, v) {
            let k = choose|k: int| 0 <= k < f2.len() && f2[k] == v;
            if k < fin.len() {
                assert(fin[k] == v);
            }
        }
        if finished(fin, v) {
            let k = choose|k: int| 0 <= k < fin.len() && fin[k] == v;
            assert(f2[k] == v);
        }
        if v == node {
            assert(f2[fin.len() as int] == node);
        }
    }
    assert forall|v: int| #[trigger] stack.contains(v) implies s1.contains(v) && v != node by {
        let k = choose|k: int| 0 <= k < stack.len() && stack[k] == v;
        assert(s1[k] == v);
    }
    assert forall|v: int| #[trigger] s1.contains(v) implies stack.contains(v) || v == node by {
        let k = choose|k: int| 0 <= k < s1.len() && s1[k] == v;
        if k < stack.len() {
            assert(stack[k] == v);
        }
    }
    assert forall|x: int, y: int| #[trigger] finished(f2, x) && #[trigger] adj_edge(adj, x, y) implies visited[y] by {
        if x != node {
            assert(finished(fin, x));
        }
    }
    assert forall|v: int| #[trigger] finished(f2, v) implies 0 <= v < adj.len() && visited[v] by {
        if v != node {
            let k = choose|k: int| 0 <= k < fin.len() && fin[k] == v;
        }
    }
    assert forall|k: int| 0 <= k < stack.len() implies reaches(adj, #[trigger] stack[k], node) by {
        assert(s1[k] == stack[k]);
        assert(reaches(adj, s1[k], s1[stack.len() as int]));
    }
}

/// A finished vertex mutually reachable with the vertex being finished
/// keeps a witness.
proof fn lemma_finish_witness(
    adj: Seq<Seq<usize>>,
    fin: Seq<usize>,
    visited: Seq<bool>,
    stack: Seq<int>,
    node: int,
    x: int,
    y: int,
)
    requires
        dfs_state_ok(adj, fin, visited, stack.push(node)),
        forall|y: int| #[trigger] adj_edge(adj, node, y) ==> visited[y],
        mutual(adj, x, node),
        reaches(adj, x, y),
        !reaches(adj, y, x),
    ensures
        exists|w: int|
            #![trigger mutual(adj, x, w)]
            mutual(adj, x, w) && (stack.contains(w) || (finished(fin.push(node as usize), y)
                && finishes_after(fin.push(node as usize), w, y))),
{
    let s1 = stack.push(node);
    let f2 = fin.push(node as usize);
    lemma_finish_facts(adj, fin, visited, stack, node);
    lemma_reaches_trans(adj, node, x, y);
    lemma_reaches_range(adj, node, y);
    if finished(fin, y) {
        let j = choose|j: int| 0 <= j < fin.len() && fin[j] == y;
        assert(f2[j] == y);
        assert(f2[fin.len() as int] == node);
        assert(finishes_after(f2, node, y));
        assert(finished(f2, y));
        assert(mutual(adj, x, node));
    } else if y == node {
        assert(false);
    } else if stack.contains(y) {
        let k = choose|k: int| 0 <= k < stack.len() && stack[k] == y;
        assert(reaches(adj, stack[k], node));
        lemma_reaches_trans(adj, y, node, x);
        assert(false);
    } else {
        assert(!s1.contains(y));
        assert(!visited[y]);
        let p = choose|p: Seq<int>| #[trigger] is_walk(adj, p) && p[0] == node && p[p.len() - 1] == y;
        assert(finished(f2, node));
        lemma_escape(adj, f2, visited, p);
        let g = choose|g: int|
            #![trigger visited[g]]
            visited[g] && !finished(f2, g) && reaches(adj, p[0], g) && reaches(adj, g, p[p.len() - 1]);
        lemma_reaches_range(adj, node, g);
        assert(s1.contains(g));
        assert(stack.contains(g));
        let k = choose|k: int| 0 <= k < stack.len() && stack[k] == g;
        assert(reaches(adj, stack[k], node));
        lemma_reaches_trans(adj, x, node, g);
        lemma_reaches_trans(adj, g, node, x);
        assert(mutual(adj, x, g));
    }
}

/// Finishing the vertex on top of the stack, once all its successors are
/// visited, keeps the state sound.
pub proof fn lemma_finish_top(adj: Seq<Seq<usize>>, fin: Seq<usize>, visited: Seq<bool>, stack: Seq<int>, node: int)
    requires
        dfs_state_ok(adj, fin, visited, stack.push(node)),
        forall|y: int| #[trigger] adj_edge(adj, node, y) ==> visited[y],
    ensures
        dfs_state_ok(adj, fin.push(node as usize), visited, stack),
{
    let s1 = stack.push(node);
    let f2 = fin.push(node as usize);
    lemma_finish_facts(adj, fin, visited, stack, node);
    assert(f2.no_duplicates()) by {
        assert forall|i: int, j: int| 0 <= i < j < f2.len() implies f2[i] != f2[j] by {
            if j == fin.len() {
                assert(f2[i] == fin[i]);
                assert(finished(fin, fin[i] as int));
            } else {
                assert(f2[i] == fin[i] && f2[j] == fin[j]);
            }
        }
    }
    assert(stack.no_duplicates()) by {
        assert forall|i: int, j: int| 0 <= i < j < stack.len() implies stack[i] != stack[j] by {
            assert(s1[i] == stack[i] && s1[j] == stack[j]);
        }
    }
    assert forall|k: int| 0 <= k < f2.len() implies #[trigger] f2[k] < adj.len() by {
        if k < fin.len() {
            assert(f2[k] == fin[k]);
        }
    }
    assert forall|k: int| 0 <= k < stack.len() implies 0 <= #[trigger] stack[k] < adj.len() by {
        assert(s1[k] == stack[k]);
    }
    assert forall|i: int, j: int| 0 <= i < j < stack.len() implies reaches(adj, #[trigger] stack[i], #[trigger] stack[j]) by {
        assert(s1[i] == stack[i] && s1[j] == stack[j]);
    }
    assert forall|v: int| 0 <= v < adj.len() implies (#[trigger] visited[v] <==> (finished(f2, v) || stack.contains(v))) by {
        assert(visited[v] <==> (finished(fin, v) || s1.contains(v)));
    }
    assert forall|v: int| #[trigger] stack.contains(v) implies !finished(f2, v) by {
        assert(s1.contains(v));
    }
    assert forall|x: int, y: int|
        #![trigger finished(f2, x), reaches(adj, x, y)]
        finished(f2, x) && reaches(adj, x, y) && !reaches(adj, y, x) implies exists|w: int|
            #![trigger mutual(adj, x, w)]
            mutual(adj, x, w) && (stack.contains(w) || (finished(f2, y) && finishes_after(f2, w, y))) by {
        if x == node {
            lemma_reaches_refl(adj, node);
            lemma_finish_witness(adj, fin, visited, stack, node, x, y);
        } else {
            assert(finished(fin, x));
            let w = choose|w: int|
                #![trigger mutual(adj, x, w)]
                mutual(adj, x, w) && (s1.contains(w) || (finished(fin, y) && finishes_after(fin, w, y)));
            if s1.contains(w) && w != node {
                assert(stack.contains(w));
            } else if w == node {
                lemma_finish_witness(adj, fin, visited, stack, node, x, y);
            } else {
                let (i, j) = choose|i: int, j: int| 0 <= j < i < fin.len() && fin[i] == w && fin[j] == y;
                assert(f2[i] == w && f2[j] == y);
                assert(finishes_after(f2, w, y));
                assert(finished(f2, y));
            }
        }
    }
}

/// How often `x` occurs in `s`.
pub open spec fn occurrences(s: Seq<usize>, x: int) -> nat
    decreases s.len(),
{
    if s.len() == 0 {
        0
    } else {
        occurrences(s.drop_last(), x) + (if s.last() == x {
            1nat
        } else {
            0nat
        })
    }
}

/// How often the edge `(a, b)` occurs in `edges`.
pub open spec fn edge_occurrences(edges: Seq<(usize, usize)>, a: int, b: int) -> nat
    decreases edges.len(),
{
    if edges.len() == 0 {
        0
    } else {
        edge_occurrences(edges.drop_last(), a, b) + (if edges.last().0 == a && edges.last().1
            == b {
            1nat
        } else {
            0nat
        })
    }
}

/// Every edge of `edges` joins two vertices below `n`.
pub open spec fn edges_below(edges: Seq<(usize, usize)>, n: int) -> bool {
    forall|k: int| 0 <= k < edges.len() ==> #[trigger] edges[k].0 < n && edges[k].1 < n
}

/// `adj` lists the successors and `rev` the predecessors of the edges,
/// each as often as the edge occurs.
pub open spec fn adjacency_of(
    adj: Seq<Seq<usize>>,
    rev: Seq<Seq<usize>>,
    edges: Seq<(usize, usize)>,
    n: int,
) -> bool {
    &&& adj.len() == n
    &&& rev.len() == n
    &&& adj_well_formed(adj)
    &&& adj_well_formed(rev)
    &&& forall|a: int, b: int|
        0 <= a < n && 0 <= b < n ==> #[trigger] occurrences(adj[a], b) == edge_occurrences(
            edges,
            a,
            b,
        ) && occurrences(rev[b], a) == edge_occurrences(edges, a, b)
}

pub proof fn lemma_occurrences_contains(s: Seq<usize>, x: int)
    ensures
        occurrences(s, x) > 0 <==> seq_has(s, x),
    decreases s.len(),
{
    if s.len() > 0 {
        lemma_occurrences_contains(s.drop_last(), x);
        if seq_has(s.drop_last(), x) {
            let k = choose|k: int| 0 <= k < s.drop_last().len() && s.drop_last()[k] == x;
            assert(s[k] == x);
        }
        if seq_has(s, x) && s.last() != x {
            let k = choose|k: int| 0 <= k < s.len() && s[k] == x;
            assert(k != s.len() - 1);
            assert(s.drop_last()[k] == x);
        }
        if s.last() == x {
            assert(s[s.len() - 1] == x);
        }
    }
}

pub proof fn lemma_edge_occurrences_contains(edges: Seq<(usize, usize)>, a: int, b: int)
    ensures
        edge_occurrences(edges, a, b) > 0 <==> exists|k: int|
            0 <= k < edges.len() && edges[k].0 == a && edges[k].1 == b,
    decreases edges.len(),
{
    if edges.len() > 0 {
        lemma_edge_occurrences_contains(edges.drop_last(), a, b);
        if exists|k: int| 0 <= k < edges.len() && edges[k].0 == a && edges[k].1 == b {
            let k = choose|k: int| 0 <= k < edges.len() && edges[k].0 == a && edges[k].1 == b;
            if k < edges.len() - 1 {
                assert(edges.drop_last()[k] == edges[k]);
            }
        }
        if exists|k: int|
            0 <= k < edges.drop_last().len() && edges.drop_last()[k].0 == a
                && edges.drop_last()[k].1 == b {
            let k = choose|k: int|
                0 <= k < edges.drop_last().len() && edges.drop_last()[k].0 == a
                    && edges.drop_last()[k].1 == b;
            assert(edges[k] == edges.drop_last()[k]);
        }
    }
}

/// With adjacency lists built from `edges`, a successor is exactly an edge,
/// and a predecessor in `rev` is exactly an edge the other way.
pub proof fn lemma_adjacency_edge(
    adj: Seq<Seq<usize>>,
    rev: Seq<Seq<usize>>,
    edges: Seq<(usize, usize)>,
    n: int,
    a: int,
    b: int,
)
    requires
        adjacency_of(adj, rev, edges, n),
        0 <= a < n,
        0 <= b < n,
    ensures
        adj_edge(adj, a, b) <==> exists|k: int|
            0 <= k < edges.len() && edges[k].0 == a && edges[k].1 == b,
        adj_edge(rev, b, a) <==> adj_edge(adj, a, b),
{
    lemma_occurrences_contains(adj[a], b);
    lemma_occurrences_contains(rev[b], a);
    lemma_edge_occurrences_contains(edges, a, b);
    assert(occurrences(adj[a], b) == edge_occurrences(edges, a, b));
}

/// Successor and predecessor lists of `edges` over the vertices `0..n`.
pub fn build_adjacency(n: usize, edges: &Vec<(usize, usize)>) -> (res: (
    Vec<Vec<usize>>,
    Vec<Vec<usize>>,
))
    requires
        edges_below(edges@, n as int),
    ensures
        adjacency_of(res.0.deep_view(), res.1.deep_view(), edges@, n as int),
{
    let mut adj: Vec<Vec<usize>> = Vec::new();
    let mut rev: Vec<Vec<usize>> = Vec::new();
    let mut i: usize = 0;
    while i < n
        invariant
            i <= n,
            adj.len() == i,
            rev.len() == i,
            forall|j: int| 0 <= j < i ==> (#[trigger] adj.deep_view()[j]).len() == 0,
            forall|j: int| 0 <= j < i ==> (#[trigger] rev.deep_view()[j]).len() == 0,
        decreases n - i,
    {
        let ghost a0 = adj.deep_view();
        let ghost r0 = rev.deep_view();
        adj.push(Vec::new());
        rev.push(Vec::new());
        assert forall|j: int| 0 <= j <= i implies (#[trigger] adj.deep_view()[j]).len() == 0 by {
            if j < i {
                assert(adj.deep_view()[j] == a0[j]);
            }
        }
        assert forall|j: int| 0 <= j <= i implies (#[trigger] rev.deep_view()[j]).len() == 0 by {
            if j < i {
                assert(rev.deep_view()[j] == r0[j]);
            }
        }
        i += 1;
    }
    assert(edges@.take(0) =~= Seq::<(usize, usize)>::empty());
    assert forall|x: int, y: int| 0 <= x < n && 0 <= y < n implies #[trigger] occurrences(
        adj.deep_view()[x],
        y,
    ) == edge_occurrences(edges@.take(0), x, y) && occurrences(rev.deep_view()[y], x)
        == edge_occurrences(edges@.take(0), x, y) by {
        assert(adj.deep_view()[x].len() == 0 && rev.deep_view()[y].len() == 0);
    }
    let mut k: usize = 0;
    while k < edges.len()
        invariant
            k <= edges.len(),
            edges_below(edges@, n as int),
            adjacency_of(adj.deep_view(), rev.deep_view(), edges@.take(k as int), n as int),
        decreases edges.len() - k,
    {
        let (a, b) = edges[k];
        assert(edges@[k as int].0 < n && edges@[k as int].1 < n);
        let ghost adj0 = adj.deep_view();
        let ghost rev0 = rev.deep_view();
        adj[a].push(b);
        rev[b].push(a);
        let ghost pre = edges@.take(k as int);
        let ghost post = edges@.take(k + 1);
        assert(post.drop_last() =~= pre);
        assert(post.last() == (a, b));
        assert forall|x: int, y: int| 0 <= x < n && 0 <= y < n implies #[trigger] occurrences(
            adj.deep_view()[x],
            y,
        ) == edge_occurrences(post, x, y) && occurrences(rev.deep_view()[y], x)
            == edge_occurrences(post, x, y) by {
            assert(occurrences(adj0[x], y) == edge_occurrences(pre, x, y));
            if x == a {
                assert(adj.deep_view()[x].drop_last() =~= adj0[x]);
            } else {
                assert(adj.deep_view()[x] =~= adj0[x]);
            }
            if y == b {
                assert(rev.deep_view()[y].drop_last() =~= rev0[y]);
            } else {
                assert(rev.deep_view()[y] =~= rev0[y]);
            }
        }
        assert forall|x: int, j: int|
            0 <= x < adj.deep_view().len() && 0 <= j < adj.deep_view()[x].len() implies #[trigger] adj.deep_view()[x][j]
            < adj.deep_view().len() by {
            if x == a && j == adj0[x].len() {
            } else {
                assert(adj.deep_view()[x][j] == adj0[x][j]);
            }
        }
        assert forall|x: int, j: int|
            0 <= x < rev.deep_view().len() && 0 <= j < rev.deep_view()[x].len() implies #[trigger] rev.deep_view()[x][j]
            < rev.deep_view().len() by {
            if x == b && j == rev0[x].len() {
            } else {
                assert(rev.deep_view()[x][j] == rev0[x][j]);
            }
        }
        k += 1;
    }
    assert(edges@.take(edges.len() as int) =~= edges@);
    (adj, rev)
}


/// Number of `false` entries.
pub open spec fn count_false(v: Seq<bool>) -> nat
    decreases v.len(),
{
    if v.len() == 0 {
        0
    } else {
        count_false(v.drop_last()) + (if v.last() {
            0nat
        } else {
            1nat
        })
    }
}

/// Every entry set in `a` is set in `b`.
pub open spec fn marks_grow(a: Seq<bool>, b: Seq<bool>) -> bool {
    a.len() == b.len() && forall|i: int| 0 <= i < a.len() && #[trigger] a[i] ==> b[i]
}

/// Setting more marks never adds `false` entries, and setting a new one
/// removes at least one.
pub proof fn lemma_count_false_grow(a: Seq<bool>, b: Seq<bool>, i: int)
    requires
        marks_grow(a, b),
    ensures
        count_false(b) <= count_false(a),
        0 <= i < a.len() && !a[i] && b[i] ==> count_false(b) < count_false(a),
    decreases a.len(),
{
    if a.len() > 0 {
        let a2 = a.drop_last();
        let b2 = b.drop_last();
        assert forall|j: int| 0 <= j < a2.len() && #[trigger] a2[j] implies b2[j] by {
            assert(a[j]);
        }
        lemma_count_false_grow(a2, b2, i);
    }
}

/// The finishing list of a depth-first search: no repeats, vertices below
/// `n`, all of them marked visited.
pub open spec fn finish_list_ok(finish: Seq<usize>, visited: Seq<bool>, n: int) -> bool {
    &&& finish.no_duplicates()
    &&& forall|k: int| 0 <= k < finish.len() ==> #[trigger] finish[k] < n && visited[finish[k] as int]
}

/// Depth-first search from `node`: every vertex it reaches for the first
/// time is marked visited and appended to `finish` once it is done.
pub fn dfs_finish_order(
    node: usize,
    adj: &Vec<Vec<usize>>,
    visited: &mut Vec<bool>,
    finish: &mut Vec<usize>,
    Ghost(stack): Ghost<Seq<int>>,
)
    requires
        node < adj.len(),
        adj_well_formed(adj.deep_view()),
        old(visited).len() == adj.len(),
        finish_list_ok(old(finish)@, old(visited)@, adj.len() as int),
        dfs_state_ok(adj.deep_view(), old(finish)@, old(visited)@, stack),
        stack.len() > 0 ==> adj_edge(adj.deep_view(), stack[stack.len() - 1], node as int),
    ensures
        dfs_state_ok(adj.deep_view(), final(finish)@, final(visited)@, stack),
        marks_grow(old(visited)@, final(visited)@),
        final(visited)@[node as int],
        finish_list_ok(final(finish)@, final(visited)@, adj.len() as int),
        final(finish)@.len() >= old(finish)@.len(),
        final(finish)@.subrange(0, old(finish)@.len() as int) == old(finish)@,
        forall|k: int|
            old(finish)@.len() <= k < final(finish)@.len() ==> !old(visited)@[#[trigger] final(finish)@[k] as int],
        forall|v: int|
            0 <= v < adj.len() && #[trigger] final(visited)@[v] && !old(visited)@[v]
                ==> final(finish)@.contains(v as usize),
    decreases count_false(old(visited)@),
{
    if visited[node] {
        return ;
    }
    let ghost vis0 = visited@;
    let ghost fin0 = finish@;
    let ghost adjv = adj.deep_view();
    let ghost inner = stack.push(node as int);
    proof {
        lemma_push_gray(adjv, fin0, vis0, stack, node as int);
    }
    visited.set(node, true);
    proof {
        lemma_count_false_grow(vis0, visited@, node as int);
        assert forall|k: int| 0 <= k < finish@.len() implies #[trigger] finish@[k] < adj.len()
            && visited@[finish@[k] as int] by {
            assert(vis0[finish@[k] as int]);
        }
    }
    let len = adj[node].len();
    let mut i: usize = 0;
    while i < len
        invariant
            len == adj@[node as int]@.len(),
            i <= len,
            node < adj.len(),
            adj_well_formed(adj.deep_view()),
            visited.len() == adj.len(),
            vis0 == old(visited)@,
            fin0 == old(finish)@,
            !vis0[node as int],
            marks_grow(vis0, visited@),
            visited@[node as int],
            count_false(visited@) < count_false(vis0),
            finish_list_ok(finish@, visited@, adj.len() as int),
            finish@.len() >= fin0.len(),
            finish@.subrange(0, fin0.len() as int) == fin0,
            forall|k: int| fin0.len() <= k < finish@.len() ==> !vis0[#[trigger] finish@[k] as int],
            forall|k: int| fin0.len() <= k < finish@.len() ==> #[trigger] finish@[k] != node,
            forall|v: int|
                0 <= v < adj.len() && v != node && #[trigger] visited@[v] && !vis0[v]
                    ==> finish@.contains(v as usize),
            adjv == adj.deep_view(),
            inner == stack.push(node as int),
            dfs_state_ok(adjv, finish@, visited@, inner),
            forall|t: int| 0 <= t < i ==> visited@[#[trigger] adjv[node as int][t] as int],
        decreases len - i,
    {
        let next = adj[node][i];
        proof {
            assert(adj.deep_view()[node as int][i as int] == next);
            assert(inner[inner.len() - 1] == node);
            assert(adj_edge(adjv, node as int, next as int));
        }
        let ghost vis1 = visited@;
        let ghost fin1 = finish@;
        dfs_finish_order(next, adj, visited, finish, Ghost(inner));
        proof {
            lemma_count_false_grow(vis1, visited@, 0);
            assert forall|k: int| fin0.len() <= k < finish@.len() implies !vis0[#[trigger] finish@[k]
                as int] by {
                if k < fin1.len() {
                    assert(finish@.subrange(0, fin1.len() as int)[k] == fin1[k]);
                } else {
                    assert(!vis1[finish@[k] as int]);
                }
            }
            assert forall|k: int| fin0.len() <= k < finish@.len() implies #[trigger] finish@[k] != node by {
                if k < fin1.len() {
                    assert(finish@.subrange(0, fin1.len() as int)[k] == fin1[k]);
                } else {
                    assert(!vis1[finish@[k] as int]);
                }
            }
            assert forall|v: int|
                0 <= v < adj.len() && v != node && #[trigger] visited@[v] && !vis0[v] implies finish@.contains(
                v as usize,
            ) by {
                if vis1[v] {
                    assert(fin1.contains(v as usize));
                    let k = choose|k: int| 0 <= k < fin1.len() && fin1[k] == v as usize;
                    assert(finish@.subrange(0, fin1.len() as int)[k] == fin1[k]);
                    assert(finish@[k] == v as usize);
                }
            }
            assert(finish@.subrange(0, fin0.len() as int) =~= fin1.subrange(0, fin0.len() as int));
            assert forall|t: int| 0 <= t < i + 1 implies visited@[#[trigger] adjv[node as int][t] as int] by {
                if t < i {
                    assert(vis1[adjv[node as int][t] as int]);
                }
            }
        }
        i += 1;
    }
    proof {
        assert forall|y: int| #[trigger] adj_edge(adjv, node as int, y) implies visited@[y] by {
            let t = choose|t: int| 0 <= t < adjv[node as int].len() && adjv[node as int][t] == y;
        }
        lemma_finish_top(adjv, finish@, visited@, stack, node as int);
    }
    proof {
        assert(!finish@.contains(node)) by {
            if finish@.contains(node) {
                let k = choose|k: int| 0 <= k < finish@.len() && finish@[k] == node;
                if k < fin0.len() {
                    assert(finish@.subrange(0, fin0.len() as int)[k] == fin0[k]);
                    assert(vis0[node as int]);
                }
            }
        }
    }
    let ghost fin2 = finish@;
    finish.push(node);
    proof {
        assert(finish@.subrange(0, fin0.len() as int) =~= fin2.subrange(0, fin0.len() as int));
        assert(finish@[fin2.len() as int] == node);
        assert forall|k: int| 0 <= k < finish@.len() implies #[trigger] finish@[k] < adj.len()
            && visited@[finish@[k] as int] by {
            if k < fin2.len() {
                assert(finish@[k] == fin2[k]);
            }
        }
        assert forall|v: int|
            0 <= v < adj.len() && #[trigger] visited@[v] && !vis0[v] implies finish@.contains(
            v as usize,
        ) by {
            if v == node {
                assert(finish@[fin2.len() as int] == node);
            } else {
                let k = choose|k: int| 0 <= k < fin2.len() && fin2[k] == v as usize;
                assert(finish@[k] == fin2[k]);
            }
        }
        assert forall|k: int| fin0.len() <= k < finish@.len() implies !vis0[#[trigger] finish@[k]
            as int] by {
            if k < fin2.len() {
                assert(finish@[k] == fin2[k]);
            }
        }
    }
}


/// `comps` partitions the vertices `0..n`, and `comp_of` names the part of
/// each vertex.
pub open spec fn components_ok(comps: Seq<Seq<usize>>, comp_of: Seq<usize>, n: int) -> bool {
    &&& comp_of.len() == n
    &&& forall|v: int|
        0 <= v < n ==> #[trigger] comp_of[v] < comps.len() && seq_has(comps[comp_of[v] as int], v)
    &&& forall|c: int, k: int|
        0 <= c < comps.len() && 0 <= k < comps[c].len() ==> #[trigger] comps[c][k] < n
            && comp_of[comps[c][k] as int] == c
    &&& forall|c: int| 0 <= c < comps.len() ==> (#[trigger] comps[c]).len() > 0 && comps[c].no_duplicates()
}

/// Marks every still unmarked predecessor of `cur` as part of component `c`
/// and pushes it on `stack`.
fn claim_predecessors(
    cur: usize,
    rev: &Vec<Vec<usize>>,
    assigned: &mut Vec<bool>,
    comp_of: &mut Vec<usize>,
    stack: &mut Vec<usize>,
    c: usize,
)
    requires
        cur < rev.len(),
        adj_well_formed(rev.deep_view()),
        old(assigned).len() == rev.len(),
        old(comp_of).len() == rev.len(),
        forall|v: int| 0 <= v < rev.len() && #[trigger] old(assigned)@[v] ==> old(comp_of)@[v] <= c,
    ensures
        marks_grow(old(assigned)@, final(assigned)@),
        final(comp_of)@.len() == rev.len(),
        forall|v: int|
            0 <= v < rev.len() && #[trigger] old(assigned)@[v] ==> final(comp_of)@[v] == old(comp_of)@[v],
        forall|v: int|
            0 <= v < rev.len() && #[trigger] final(assigned)@[v] && !old(assigned)@[v]
                ==> final(comp_of)@[v] == c && seq_has(final(stack)@, v),
        final(stack)@.len() >= old(stack)@.len(),
        final(stack)@.subrange(0, old(stack)@.len() as int) == old(stack)@,
        forall|k: int|
            old(stack)@.len() <= k < final(stack)@.len() ==> #[trigger] final(stack)@[k]
                < rev.len() && !old(assigned)@[final(stack)@[k] as int] && final(assigned)@[final(stack)@[k] as int],
        final(stack)@.subrange(old(stack)@.len() as int, final(stack)@.len() as int).no_duplicates(),
        forall|x: int|
            adj_edge(rev.deep_view(), cur as int, x) ==> #[trigger] final(assigned)@[x] && final(comp_of)@[x] <= c,
        forall|k: int|
            old(stack)@.len() <= k < final(stack)@.len() ==> adj_edge(rev.deep_view(), cur as int, #[trigger] final(stack)@[k] as int),
{
    let len = rev[cur].len();
    let ghost a0 = assigned@;
    let ghost c0 = comp_of@;
    let ghost s0 = stack@;
    let mut j: usize = 0;
    while j < len
        invariant
            len == rev@[cur as int]@.len(),
            j <= len,
            cur < rev.len(),
            adj_well_formed(rev.deep_view()),
            a0 == old(assigned)@,
            c0 == old(comp_of)@,
            s0 == old(stack)@,
            forall|v: int| 0 <= v < rev.len() && #[trigger] a0[v] ==> c0[v] <= c,
            marks_grow(a0, assigned@),
            assigned.len() == rev.len(),
            rev.deep_view().len() == rev.len(),
            comp_of@.len() == rev.len(),
            forall|v: int| 0 <= v < rev.len() && #[trigger] a0[v] ==> comp_of@[v] == c0[v],
            forall|v: int|
                0 <= v < rev.len() && #[trigger] assigned@[v] && !a0[v] ==> comp_of@[v] == c
                    && seq_has(stack@, v),
            stack@.len() >= s0.len(),
            stack@.subrange(0, s0.len() as int) == s0,
            forall|k: int|
                s0.len() <= k < stack@.len() ==> #[trigger] stack@[k] < rev.len() && !a0[stack@[k] as int]
                    && assigned@[stack@[k] as int],
            stack@.subrange(s0.len() as int, stack@.len() as int).no_duplicates(),
            forall|t: int|
                0 <= t < j ==> assigned@[#[trigger] rev.deep_view()[cur as int][t] as int]
                    && comp_of@[rev.deep_view()[cur as int][t] as int] <= c,
            forall|k: int|
                s0.len() <= k < stack@.len() ==> adj_edge(rev.deep_view(), cur as int, #[trigger] stack@[k] as int),
        decreases len - j,
    {
        let prev = rev[cur][j];
        proof {
            assert(rev.deep_view()[cur as int][j as int] == prev);
        }
        if !assigned[prev] {
            let ghost st = stack@;
            let ghost asg = assigned@;
            assigned.set(prev, true);
            comp_of.set(prev, c);
            stack.push(prev);
            proof {
                assert(stack@.subrange(0, s0.len() as int) =~= st.subrange(0, s0.len() as int));
                assert(stack@.subrange(s0.len() as int, stack@.len() as int) =~= st.subrange(
                    s0.len() as int,
                    st.len() as int,
                ).push(prev));
                assert forall|k: int| s0.len() <= k < st.len() implies st[k] != prev by {
                    assert(asg[st[k] as int]);
                }
                assert forall|v: int|
                    0 <= v < rev.len() && #[trigger] assigned@[v] && !a0[v] implies comp_of@[v] == c
                        && seq_has(stack@, v) by {
                    if v == prev {
                        assert(stack@[st.len() as int] == prev);
                    } else {
                        let k = choose|k: int| 0 <= k < st.len() && st[k] == v;
                        assert(stack@[k] == st[k]);
                    }
                }
                assert forall|k: int|
                    s0.len() <= k < stack@.len() implies #[trigger] stack@[k] < rev.len() && !a0[stack@[k]
                        as int] && assigned@[stack@[k] as int] by {
                    if k < st.len() {
                        assert(stack@[k] == st[k]);
                    }
                }
                assert forall|k: int|
                    s0.len() <= k < stack@.len() implies adj_edge(rev.deep_view(), cur as int, #[trigger] stack@[k] as int) by {
                    if k < st.len() {
                        assert(stack@[k] == st[k]);
                    } else {
                        assert(rev.deep_view()[cur as int][j as int] == prev);
                    }
                }
            }
        }
        j += 1;
    }
}


/// Finishing order of depth-first searches started from `0, 1, .., n - 1`
/// in turn: every vertex exactly once.
pub fn finish_order(adj: &Vec<Vec<usize>>) -> (finish: Vec<usize>)
    requires
        adj_well_formed(adj.deep_view()),
    ensures
        finish@.no_duplicates(),
        forall|k: int| 0 <= k < finish@.len() ==> #[trigger] finish@[k] < adj.len(),
        forall|v: int| 0 <= v < adj.len() ==> seq_has(finish@, v),
        forall|x: int, y: int|
            #![trigger reaches(adj.deep_view(), x, y)]
            0 <= x < adj.len() && reaches(adj.deep_view(), x, y) && !reaches(adj.deep_view(), y, x)
                ==> exists|w: int|
                #![trigger mutual(adj.deep_view(), x, w)]
                mutual(adj.deep_view(), x, w) && finishes_after(finish@, w, y),
{
    let n = adj.len();
    let mut visited: Vec<bool> = Vec::new();
    let mut i: usize = 0;
    while i < n
        invariant
            i <= n,
            visited.len() == i,
            forall|j: int| 0 <= j < i ==> !(#[trigger] visited@[j]),
        decreases n - i,
    {
        visited.push(false);
        i += 1;
    }
    let mut finish: Vec<usize> = Vec::new();
    let ghost adjv = adj.deep_view();
    let ghost none: Seq<int> = Seq::empty();
    proof {
        assert forall|u: int| 0 <= u < n implies (#[trigger] visited@[u] <==> (finished(finish@, u) || none.contains(u))) by {
            if finished(finish@, u) {
                let k = choose|k: int| 0 <= k < finish@.len() && finish@[k] == u;
            }
        }
        assert forall|x: int, y: int| #[trigger] finished(finish@, x) && #[trigger] adj_edge(adjv, x, y) implies visited@[y] by {
            let k = choose|k: int| 0 <= k < finish@.len() && finish@[k] == x;
        }
        assert forall|x: int, y: int|
            #![trigger finished(finish@, x), reaches(adjv, x, y)]
            finished(finish@, x) && reaches(adjv, x, y) && !reaches(adjv, y, x) implies exists|w: int|
                #![trigger mutual(adjv, x, w)]
                mutual(adjv, x, w) && (none.contains(w) || (finished(finish@, y) && finishes_after(finish@, w, y))) by {
            let k = choose|k: int| 0 <= k < finish@.len() && finish@[k] == x;
        }
        assert(dfs_state_ok(adjv, finish@, visited@, none));
    }
    let mut v: usize = 0;
    while v < n
        invariant
            n == adj.len(),
            v <= n,
            adj_well_formed(adj.deep_view()),
            adjv == adj.deep_view(),
            none == Seq::<int>::empty(),
            visited.len() == n,
            finish_list_ok(finish@, visited@, n as int),
            dfs_state_ok(adjv, finish@, visited@, none),
            forall|u: int| 0 <= u < v ==> #[trigger] visited@[u],
            forall|u: int| 0 <= u < n && #[trigger] visited@[u] ==> finish@.contains(u as usize),
        decreases n - v,
    {
        let ghost vis0 = visited@;
        let ghost fin0 = finish@;
        dfs_finish_order(v, adj, &mut visited, &mut finish, Ghost(none));
        proof {
            assert forall|u: int| 0 <= u <= v implies #[trigger] visited@[u] by {
                if u < v {
                    assert(vis0[u]);
                }
            }
            assert forall|u: int| 0 <= u < n && #[trigger] visited@[u] implies finish@.contains(
                u as usize,
            ) by {
                if vis0[u] {
                    let k = choose|k: int| 0 <= k < fin0.len() && fin0[k] == u as usize;
                    assert(finish@.subrange(0, fin0.len() as int)[k] == fin0[k]);
                    assert(finish@[k] == u as usize);
                }
            }
        }
        v += 1;
    }
    proof {
        assert forall|u: int| 0 <= u < n implies seq_has(finish@, u) by {
            assert(visited@[u]);
            assert(finish@.contains(u as usize));
            let k = choose|k: int| 0 <= k < finish@.len() && finish@[k] == u as usize;
            assert(finish@[k] == u);
        }
        assert forall|x: int, y: int|
            #![trigger reaches(adjv, x, y)]
            0 <= x < n && reaches(adjv, x, y) && !reaches(adjv, y, x) implies exists|w: int|
                #![trigger mutual(adjv, x, w)]
                mutual(adjv, x, w) && finishes_after(finish@, w, y) by {
            assert(visited@[x]);
            assert(finished(finish@, x));
            let w = choose|w: int|
                #![trigger mutual(adjv, x, w)]
                mutual(adjv, x, w) && (none.contains(w) || (finished(finish@, y) && finishes_after(finish@, w, y)));
            assert(!none.contains(w));
        }
    }
    finish
}


/// The finished components: vertices below `n`, marked, labelled with
/// their component, no repeats, and every predecessor of a member is marked
/// with a component no later than the member's.
pub open spec fn finished_components_ok(
    comps: Seq<Seq<usize>>,
    comp_of: Seq<usize>,
    assigned: Seq<bool>,
    rev: Seq<Seq<usize>>,
    n: int,
) -> bool {
    &&& comp_of.len() == n
    &&& assigned.len() == n
    &&& forall|c: int, k: int|
        0 <= c < comps.len() && 0 <= k < comps[c].len() ==> #[trigger] comps[c][k] < n
            && assigned[comps[c][k] as int] && comp_of[comps[c][k] as int] == c
    &&& forall|c: int| 0 <= c < comps.len() ==> (#[trigger] comps[c]).len() > 0 && comps[c].no_duplicates()
    &&& forall|c: int, k: int, x: int|
        0 <= c < comps.len() && 0 <= k < comps[c].len() && #[trigger] adj_edge(
            rev,
            comps[c][k] as int,
            x,
        ) ==> assigned[x] && comp_of[x] <= c
}

/// A walk whose vertices were all unassigned when the search for component
/// `c` began, and that ends in component `c`, lies wholly in component `c`
/// once every predecessor of a member has been claimed.
proof fn lemma_collect_walk(
    adj: Seq<Seq<usize>>,
    p: Seq<int>,
    assigned: Seq<bool>,
    comp_of: Seq<usize>,
    start: Seq<bool>,
    c: usize,
)
    requires
        is_walk(adj, p),
        assigned.len() == comp_of.len(),
        start.len() == assigned.len(),
        forall|i: int| 0 <= i < p.len() ==> 0 <= #[trigger] p[i] < assigned.len() && !start[p[i]],
        assigned[p[p.len() - 1]] && comp_of[p[p.len() - 1]] == c,
        forall|m: int, x: int|
            0 <= m < assigned.len() && assigned[m] && comp_of[m] == c && #[trigger] adj_edge(adj, x, m)
                ==> 0 <= x < assigned.len() && assigned[x] && (start[x] || comp_of[x] == c),
    ensures
        forall|i: int| 0 <= i < p.len() ==> assigned[#[trigger] p[i]] && comp_of[p[i]] == c,
    decreases p.len(),
{
    if p.len() >= 2 {
        lemma_walk_parts(adj, p);
        let q = p.skip(1);
        assert(q[q.len() - 1] == p[p.len() - 1]);
        lemma_collect_walk(adj, q, assigned, comp_of, start, c);
        assert(q[0] == p[1]);
        assert(adj_edge(adj, p[0], p[1]));
        assert forall|i: int| 0 <= i < p.len() implies assigned[#[trigger] p[i]] && comp_of[p[i]] == c by {
            if i > 0 {
                assert(q[i - 1] == p[i]);
            }
        }
    }
}

/// The components of the graph found by searching the reversed graph from
/// each vertex in decreasing finishing order (Kosaraju's method). The parts
/// partition the vertices, and no edge leads from a later part to an
/// earlier one.
pub fn strongly_connected_components(adj: &Vec<Vec<usize>>, rev: &Vec<Vec<usize>>) -> (res: (
    Vec<Vec<usize>>,
    Vec<usize>,
))
    requires
        rev.len() == adj.len(),
        adj_well_formed(adj.deep_view()),
        adj_well_formed(rev.deep_view()),
        forall|a: int, b: int|
            0 <= a < adj.len() && 0 <= b < adj.len() ==> (#[trigger] adj_edge(adj.deep_view(), a, b)
                <==> adj_edge(rev.deep_view(), b, a)),
    ensures
        components_ok(res.0.deep_view(), res.1@, adj.len() as int),
        forall|a: int, b: int|
            0 <= a < adj.len() && 0 <= b < adj.len() && #[trigger] adj_edge(adj.deep_view(), a, b)
                ==> res.1@[a] <= res.1@[b],
        forall|a: int, b: int|
            0 <= a < adj.len() && 0 <= b < adj.len() && #[trigger] res.1@[a] == #[trigger] res.1@[b]
                ==> mutual(adj.deep_view(), a, b),
        forall|a: int, b: int|
            0 <= a < adj.len() && 0 <= b < adj.len() && #[trigger] mutual(adj.deep_view(), a, b)
                ==> res.1@[a] == res.1@[b],
{
    let n = adj.len();
    let mut finish = finish_order(adj);
    let ghost fin_all = finish@;
    let ghost adjv = adj.deep_view();
    let ghost revv = rev.deep_view();
    let ghost mut roots: Seq<int> = Seq::empty();
    let mut assigned: Vec<bool> = Vec::new();
    let mut comp_of: Vec<usize> = Vec::new();
    let mut i: usize = 0;
    while i < n
        invariant
            i <= n,
            assigned.len() == i,
            comp_of.len() == i,
            forall|j: int| 0 <= j < i ==> !(#[trigger] assigned@[j]),
        decreases n - i,
    {
        assigned.push(false);
        comp_of.push(0);
        i += 1;
    }
    let mut comps: Vec<Vec<usize>> = Vec::new();
    while finish.len() > 0
        invariant
            n == adj.len(),
            n == rev.len(),
            rev.deep_view().len() == n,
            adj_well_formed(rev.deep_view()),
            finished_components_ok(comps.deep_view(), comp_of@, assigned@, rev.deep_view(), n as int),
            forall|v: int|
                0 <= v < n && #[trigger] assigned@[v] ==> comp_of@[v] < comps.len() && seq_has(
                    comps.deep_view()[comp_of@[v] as int],
                    v,
                ),
            forall|k: int| 0 <= k < finish@.len() ==> #[trigger] finish@[k] < n,
            forall|v: int| 0 <= v < n ==> seq_has(finish@, v) || #[trigger] assigned@[v],
            adjv == adj.deep_view(),
            revv == rev.deep_view(),
            adj_well_formed(adjv),
            forall|a: int, b: int|
                0 <= a < n && 0 <= b < n ==> (#[trigger] adj_edge(adjv, a, b) <==> adj_edge(revv, b, a)),
            fin_all.no_duplicates(),
            forall|k: int| 0 <= k < fin_all.len() ==> #[trigger] fin_all[k] < n,
            forall|x: int, y: int|
                #![trigger reaches(adjv, x, y)]
                0 <= x < n && reaches(adjv, x, y) && !reaches(adjv, y, x) ==> exists|w: int|
                    #![trigger mutual(adjv, x, w)]
                    mutual(adjv, x, w) && finishes_after(fin_all, w, y),
            finish.len() <= fin_all.len(),
            finish@ == fin_all.take(finish.len() as int),
            forall|i: int| finish.len() <= i < fin_all.len() ==> #[trigger] assigned@[fin_all[i] as int],
            roots.len() == comps.len(),
            forall|v: int|
                0 <= v < n && #[trigger] assigned@[v] ==> mutual(adjv, v, roots[comp_of@[v] as int]),
            forall|u: int, v: int|
                0 <= u < n && 0 <= v < n && #[trigger] assigned@[v] && #[trigger] mutual(adjv, u, v) ==> assigned@[u]
                    && comp_of@[u] == comp_of@[v],
        decreases finish.len(),
    {
        let ghost fin0 = finish@;
        let node = finish.pop().unwrap();
        proof {
            assert(finish@ =~= fin0.drop_last());
            assert(node == fin0[fin0.len() - 1]);
            assert(finish@ =~= fin_all.take(finish.len() as int));
            assert(fin0[fin0.len() - 1] == fin_all[finish.len() as int]);
            assert forall|v: int| 0 <= v < n && v != node implies seq_has(finish@, v) || #[trigger] assigned@[v] by {
                if !assigned@[v] {
                    let k = choose|k: int| 0 <= k < fin0.len() && fin0[k] == v;
                    if k < fin0.len() - 1 {
                        assert(finish@[k] == v);
                    }
                }
            }
        }
        if assigned[node] {
            assert forall|v: int| 0 <= v < n implies seq_has(finish@, v) || #[trigger] assigned@[v] by {
                if v != node {
                }
            }
            assert forall|i: int| finish.len() <= i < fin_all.len() implies #[trigger] assigned@[fin_all[i] as int] by {
                if i == finish.len() {
                    assert(fin_all[i] == node);
                }
            }
            continue;
        }
        let ghost as_start = assigned@;
        let ghost co_start = comp_of@;
        proof {
            assert forall|i: int| finish.len() < i < fin_all.len() implies #[trigger] as_start[fin_all[i] as int] by {}
            assert forall|v: int| 0 <= v < n && #[trigger] as_start[v] implies co_start[v] < comps.len() by {}
        }
        let c = comps.len();
        let ghost comps_dv = comps.deep_view();
        assigned.set(node, true);
        comp_of.set(node, c);
        let mut component: Vec<usize> = Vec::new();
        let mut stack: Vec<usize> = Vec::new();
        stack.push(node);
        proof {
            assert forall|cc: int, k: int|
                0 <= cc < comps_dv.len() && 0 <= k < comps_dv[cc].len() implies #[trigger] comps_dv[cc][k]
                < n && assigned@[comps_dv[cc][k] as int] && comp_of@[comps_dv[cc][k] as int] == cc by {
                assert(comps_dv[cc][k] != node);
            }
            assert forall|cc: int, k: int, x: int|
                0 <= cc < comps_dv.len() && 0 <= k < comps_dv[cc].len() && #[trigger] adj_edge(
                    rev.deep_view(),
                    comps_dv[cc][k] as int,
                    x,
                ) implies assigned@[x] && comp_of@[x] <= cc by {
                assert(x != node);
            }
            assert(stack@[0] == node);
            assert forall|v: int| 0 <= v < n implies seq_has(finish@, v) || #[trigger] assigned@[v] by {
                if v != node {
                }
            }
            lemma_reaches_refl(adjv, node as int);
            assert forall|v: int| 0 <= v < n && #[trigger] as_start[v] implies assigned@[v] && comp_of@[v] == co_start[v] by {
                assert(v != node);
            }
            assert forall|v: int| 0 <= v < n && #[trigger] assigned@[v] && !as_start[v] implies comp_of@[v] == c by {
                assert(v == node);
            }
        }
        while stack.len() > 0
            invariant
                n == adj.len(),
                n == rev.len(),
                rev.deep_view().len() == n,
                adj_well_formed(rev.deep_view()),
                c == comps.len(),
                comps_dv == comps.deep_view(),
                finished_components_ok(comps_dv, comp_of@, assigned@, rev.deep_view(), n as int),
                forall|v: int|
                    0 <= v < n && #[trigger] assigned@[v] ==> comp_of@[v] <= c && (comp_of@[v] < c
                        ==> seq_has(comps_dv[comp_of@[v] as int], v)) && (comp_of@[v] == c
                        ==> seq_has(component@, v) || seq_has(stack@, v)),
                forall|k: int|
                    0 <= k < component@.len() ==> #[trigger] component@[k] < n
                        && assigned@[component@[k] as int] && comp_of@[component@[k] as int] == c,
                forall|k: int|
                    0 <= k < stack@.len() ==> #[trigger] stack@[k] < n && assigned@[stack@[k] as int]
                        && comp_of@[stack@[k] as int] == c,
                component@.no_duplicates(),
                stack@.no_duplicates(),
                forall|i: int, j: int|
                    0 <= i < component@.len() && 0 <= j < stack@.len() ==> #[trigger] component@[i]
                        != #[trigger] stack@[j],
                forall|k: int, x: int|
                    0 <= k < component@.len() && #[trigger] adj_edge(
                        rev.deep_view(),
                        component@[k] as int,
                        x,
                    ) ==> assigned@[x] && comp_of@[x] <= c,
                component@.len() + stack@.len() > 0,
                forall|k: int| 0 <= k < finish@.len() ==> #[trigger] finish@[k] < n,
                forall|v: int| 0 <= v < n ==> seq_has(finish@, v) || #[trigger] assigned@[v],
                adjv == adj.deep_view(),
                revv == rev.deep_view(),
                forall|a: int, b: int|
                    0 <= a < n && 0 <= b < n ==> (#[trigger] adj_edge(adjv, a, b) <==> adj_edge(revv, b, a)),
                node < n,
                as_start.len() == n,
                !as_start[node as int],
                forall|v: int| 0 <= v < n && #[trigger] as_start[v] ==> assigned@[v] && comp_of@[v] == co_start[v],
                forall|v: int| 0 <= v < n && #[trigger] assigned@[v] && !as_start[v] ==> comp_of@[v] == c,
                forall|k: int| 0 <= k < component@.len() ==> reaches(adjv, #[trigger] component@[k] as int, node as int),
                forall|k: int| 0 <= k < stack@.len() ==> reaches(adjv, #[trigger] stack@[k] as int, node as int),
                roots.len() == c,
                forall|v: int| 0 <= v < n && #[trigger] as_start[v] ==> co_start[v] < c && mutual(adjv, v, roots[co_start[v] as int]),
                forall|u: int, v: int|
                    0 <= u < n && 0 <= v < n && #[trigger] as_start[v] && #[trigger] mutual(adjv, u, v) ==> as_start[u]
                        && co_start[u] == co_start[v],
                fin_all.no_duplicates(),
                finish.len() < fin_all.len(),
                fin_all[finish.len() as int] == node,
                forall|i: int| finish.len() < i < fin_all.len() ==> #[trigger] as_start[fin_all[i] as int],
                forall|x: int, y: int|
                    #![trigger reaches(adjv, x, y)]
                    0 <= x < n && reaches(adjv, x, y) && !reaches(adjv, y, x) ==> exists|w: int|
                        #![trigger mutual(adjv, x, w)]
                        mutual(adjv, x, w) && finishes_after(fin_all, w, y),
            decreases count_false(assigned@), stack.len(),
        {
            let ghost st0 = stack@;
            let ghost cp0 = component@;
            let ghost as0 = assigned@;
            let ghost co0 = comp_of@;
            let cur = stack.pop().unwrap();
            proof {
                assert(stack@ =~= st0.drop_last());
                assert(cur == st0[st0.len() - 1]);
            }
            component.push(cur);
            let ghost st1 = stack@;
            proof {
                assert forall|v: int| 0 <= v < rev.len() && #[trigger] assigned@[v] implies comp_of@[v] <= c by {
                    if comp_of@[v] < c {
                    }
                }
            }
            claim_predecessors(cur, rev, &mut assigned, &mut comp_of, &mut stack, c);
            proof {
                lemma_count_false_grow(as0, assigned@, 0);
                if count_false(assigned@) == count_false(as0) {
                    assert forall|v: int| 0 <= v < n implies (#[trigger] assigned@[v] == as0[v]) by {
                        lemma_count_false_grow(as0, assigned@, v);
                    }
                    if stack@.len() > st1.len() {
                        let v = stack@[st1.len() as int];
                        assert(!as0[v as int] && assigned@[v as int]);
                    }
                }
                // stack: old part kept, new part fresh
                assert forall|k: int| 0 <= k < st1.len() implies stack@[k] == #[trigger] st1[k] by {
                    assert(stack@.subrange(0, st1.len() as int)[k] == st1[k]);
                }
                assert forall|k: int|
                    0 <= k < stack@.len() implies #[trigger] stack@[k] < n && assigned@[stack@[k] as int]
                        && comp_of@[stack@[k] as int] == c by {
                    if k < st1.len() {
                        assert(stack@[k] == st1[k]);
                        assert(as0[st1[k] as int]);
                    } else {
                        assert(!as0[stack@[k] as int]);
                    }
                }
                assert forall|k: int|
                    0 <= k < component@.len() implies #[trigger] component@[k] < n
                        && assigned@[component@[k] as int] && comp_of@[component@[k] as int] == c by {
                    assert(as0[component@[k] as int]);
                }
                assert(stack@.no_duplicates()) by {
                    assert forall|i: int, j: int|
                        0 <= i < stack@.len() && 0 <= j < stack@.len() && i != j implies stack@[i]
                            != stack@[j] by {
                        if i < st1.len() && j < st1.len() {
                            assert(stack@[i] == st1[i] && stack@[j] == st1[j]);
                        } else if i >= st1.len() && j >= st1.len() {
                            let t = stack@.subrange(st1.len() as int, stack@.len() as int);
                            assert(t[i - st1.len()] == stack@[i]);
                            assert(t[j - st1.len()] == stack@[j]);
                        } else if i < st1.len() {
                            assert(stack@[i] == st1[i]);
                            assert(as0[st1[i] as int]);
                            assert(!as0[stack@[j] as int]);
                        } else {
                            assert(stack@[j] == st1[j]);
                            assert(as0[st1[j] as int]);
                            assert(!as0[stack@[i] as int]);
                        }
                    }
                }
                assert forall|i: int, j: int|
                    0 <= i < component@.len() && 0 <= j < stack@.len() implies #[trigger] component@[i]
                        != #[trigger] stack@[j] by {
                    assert(as0[component@[i] as int]);
                    if j < st1.len() {
                        assert(stack@[j] == st1[j]);
                        if i < cp0.len() {
                            assert(component@[i] == cp0[i]);
                            assert(st0[j] == st1[j]);
                        } else {
                            assert(component@[i] == cur);
                            assert(st0[j] == st1[j]);
                        }
                    } else {
                        assert(!as0[stack@[j] as int]);
                    }
                }
                assert(component@.no_duplicates()) by {
                    assert forall|i: int, j: int|
                        0 <= i < component@.len() && 0 <= j < component@.len() && i != j implies component@[i]
                            != component@[j] by {
                        if i < cp0.len() && j < cp0.len() {
                            assert(component@[i] == cp0[i] && component@[j] == cp0[j]);
                        } else if i < cp0.len() {
                            assert(component@[i] == cp0[i]);
                            assert(cp0[i] != st0[st0.len() - 1]);
                        } else if j < cp0.len() {
                            assert(component@[j] == cp0[j]);
                            assert(cp0[j] != st0[st0.len() - 1]);
                        }
                    }
                }
                assert forall|k: int, x: int|
                    0 <= k < component@.len() && #[trigger] adj_edge(
                        rev.deep_view(),
                        component@[k] as int,
                        x,
                    ) implies assigned@[x] && comp_of@[x] <= c by {
                    if k < cp0.len() {
                        assert(component@[k] == cp0[k]);
                        assert(as0[x] && co0[x] <= c);
                    } else {
                        assert(component@[k] == cur);
                        assert(assigned@[x]);
                    }
                }
                assert forall|v: int|
                    0 <= v < n && #[trigger] assigned@[v] implies comp_of@[v] <= c && (comp_of@[v] < c
                        ==> seq_has(comps_dv[comp_of@[v] as int], v)) && (comp_of@[v] == c
                        ==> seq_has(component@, v) || seq_has(stack@, v)) by {
                    if as0[v] {
                        assert(comp_of@[v] == co0[v]);
                        if co0[v] == c {
                            if seq_has(cp0, v) {
                                let k = choose|k: int| 0 <= k < cp0.len() && cp0[k] == v;
                                assert(component@[k] == cp0[k]);
                            } else {
                                let k = choose|k: int| 0 <= k < st0.len() && st0[k] == v;
                                if k == st0.len() - 1 {
                                    assert(component@[cp0.len() as int] == cur);
                                } else {
                                    assert(st1[k] == st0[k]);
                                    assert(stack@[k] == st1[k]);
                                }
                            }
                        }
                    }
                }
                assert forall|cc: int, k: int|
                    0 <= cc < comps_dv.len() && 0 <= k < comps_dv[cc].len() implies #[trigger] comps_dv[cc][k]
                    < n && assigned@[comps_dv[cc][k] as int] && comp_of@[comps_dv[cc][k] as int] == cc by {
                    assert(as0[comps_dv[cc][k] as int]);
                }
                assert forall|v: int| 0 <= v < n implies seq_has(finish@, v) || #[trigger] assigned@[v] by {
                    if !seq_has(finish@, v) {
                        assert(as0[v]);
                    }
                }
                assert forall|cc: int, k: int, x: int|
                    0 <= cc < comps_dv.len() && 0 <= k < comps_dv[cc].len() && #[trigger] adj_edge(
                        rev.deep_view(),
                        comps_dv[cc][k] as int,
                        x,
                    ) implies assigned@[x] && comp_of@[x] <= cc by {
                    assert(as0[x] && co0[x] <= cc);
                }
                assert(reaches(adjv, cur as int, node as int)) by {
                    assert(st0[st0.len() - 1] == cur);
                }
                assert forall|k: int| 0 <= k < component@.len() implies reaches(adjv, #[trigger] component@[k] as int, node as int) by {
                    if k < cp0.len() {
                        assert(component@[k] == cp0[k]);
                    } else {
                        assert(component@[k] == cur);
                    }
                }
                assert forall|k: int| 0 <= k < stack@.len() implies reaches(adjv, #[trigger] stack@[k] as int, node as int) by {
                    if k < st1.len() {
                        assert(stack@[k] == st1[k]);
                        assert(st1[k] == st0[k]);
                    } else {
                        let x = stack@[k] as int;
                        assert(adj_edge(revv, cur as int, x));
                        assert(x < n);
                        assert(adj_edge(adjv, x, cur as int));
                        lemma_reaches_edge(adjv, x, cur as int);
                        lemma_reaches_trans(adjv, x, cur as int, node as int);
                    }
                }
                assert forall|v: int| 0 <= v < n && #[trigger] as_start[v] implies assigned@[v] && comp_of@[v] == co_start[v] by {
                    assert(as0[v]);
                }
                assert forall|v: int| 0 <= v < n && #[trigger] assigned@[v] && !as_start[v] implies comp_of@[v] == c by {
                    if as0[v] {
                        assert(co0[v] == c);
                    }
                }
            }
        }
        proof {
            assert forall|v: int| 0 <= v < n && #[trigger] assigned@[v] && !as_start[v] implies mutual(adjv, v, node as int) by {
                assert(comp_of@[v] == c);
                assert(seq_has(component@, v));
                let k = choose|k: int| 0 <= k < component@.len() && component@[k] == v;
                assert(reaches(adjv, component@[k] as int, node as int));
                if !reaches(adjv, node as int, v) {
                    let w = choose|w: int|
                        #![trigger mutual(adjv, v, w)]
                        mutual(adjv, v, w) && finishes_after(fin_all, w, node as int);
                    let (i, j) = choose|i: int, j: int| 0 <= j < i < fin_all.len() && fin_all[i] == w && fin_all[j] == node;
                    assert(j == finish.len()) by {
                        if j != finish.len() {
                            assert(fin_all[j] == fin_all[finish.len() as int]);
                        }
                    }
                    assert(as_start[fin_all[i] as int]);
                    lemma_reaches_range(adjv, v, w);
                    assert(mutual(adjv, w, v));
                    assert(as_start[v]);
                }
            }
            assert forall|u: int, v: int|
                0 <= u < n && 0 <= v < n && #[trigger] assigned@[v] && !as_start[v] && #[trigger] mutual(adjv, u, v)
                    implies assigned@[u] && comp_of@[u] == c by {
                assert(mutual(adjv, v, node as int));
                lemma_reaches_trans(adjv, u, v, node as int);
                lemma_reaches_trans(adjv, node as int, v, u);
                let p = choose|p: Seq<int>| #[trigger] is_walk(adjv, p) && p[0] == u && p[p.len() - 1] == node as int;
                assert forall|i: int| 0 <= i < p.len() implies 0 <= #[trigger] p[i] < as_start.len() && !as_start[p[i]] by {
                    lemma_walk_split(adjv, p, i);
                    lemma_reaches_range(adjv, u, p[i]);
                    lemma_reaches_trans(adjv, node as int, u, p[i]);
                    if as_start[p[i]] {
                        assert(mutual(adjv, node as int, p[i]));
                        assert(as_start[node as int]);
                    }
                }
                assert forall|m: int, x: int|
                    0 <= m < assigned@.len() && assigned@[m] && comp_of@[m] == c && #[trigger] adj_edge(adjv, x, m)
                        implies 0 <= x < assigned@.len() && assigned@[x] && (as_start[x] || comp_of@[x] == c) by {
                    assert(seq_has(component@, m));
                    let k = choose|k: int| 0 <= k < component@.len() && component@[k] == m;
                    assert(adj_edge(revv, m, x));
                    assert(adj_edge(revv, component@[k] as int, x));
                }
                lemma_collect_walk(adjv, p, assigned@, comp_of@, as_start, c);
                assert(p[0] == u);
            }
        }
        let ghost comp_seq = component@;
        let ghost comps_v = comps@;
        proof {
            assert(component.deep_view() =~= component@);
        }
        comps.push(component);
        proof {
            assert forall|i: int| 0 <= i < comps_v.len() implies #[trigger] comps.deep_view()[i] == comps_dv[i] by {
                assert(comps@[i] == comps_v[i]);
            }
            assert(comps.deep_view()[c as int] == comp_seq);
            assert(comps.deep_view() =~= comps_dv.push(comp_seq));
            assert forall|v: int|
                0 <= v < n && #[trigger] assigned@[v] implies comp_of@[v] < comps.len() && seq_has(
                comps.deep_view()[comp_of@[v] as int],
                v,
            ) by {
                if comp_of@[v] < c {
                }
            }
            let old_roots = roots;
            roots = roots.push(node as int);
            lemma_reaches_refl(adjv, node as int);
            assert forall|v: int|
                0 <= v < n && #[trigger] assigned@[v] implies mutual(adjv, v, roots[comp_of@[v] as int]) by {
                if as_start[v] {
                    assert(roots[co_start[v] as int] == old_roots[co_start[v] as int]);
                } else {
                    assert(roots[c as int] == node);
                }
            }
            assert forall|u: int, v: int|
                0 <= u < n && 0 <= v < n && #[trigger] assigned@[v] && #[trigger] mutual(adjv, u, v) implies assigned@[u]
                    && comp_of@[u] == comp_of@[v] by {
                if as_start[v] {
                    assert(as_start[u]);
                }
            }
            assert forall|i: int| finish.len() <= i < fin_all.len() implies #[trigger] assigned@[fin_all[i] as int] by {
                if i > finish.len() {
                    assert(as_start[fin_all[i] as int]);
                }
            }
        }
    }
    proof {
        assert forall|v: int| 0 <= v < n implies #[trigger] assigned@[v] by {
            assert(seq_has(finish@, v) || assigned@[v]);
        }
        assert forall|a: int, b: int|
            0 <= a < adj.len() && 0 <= b < adj.len() && #[trigger] adj_edge(adj.deep_view(), a, b)
                implies comp_of@[a] <= comp_of@[b] by {
            assert(adj_edge(rev.deep_view(), b, a));
            assert(assigned@[b]);
            let k = choose|k: int|
                0 <= k < comps.deep_view()[comp_of@[b] as int].len()
                    && comps.deep_view()[comp_of@[b] as int][k] == b;
            assert(adj_edge(rev.deep_view(), comps.deep_view()[comp_of@[b] as int][k] as int, a));
        }
        assert forall|v: int| 0 <= v < n implies #[trigger] comp_of@[v] < comps.deep_view().len()
            && seq_has(comps.deep_view()[comp_of@[v] as int], v) by {
            assert(assigned@[v]);
        }
        assert forall|a: int, b: int|
            0 <= a < adj.len() && 0 <= b < adj.len() && #[trigger] comp_of@[a] == #[trigger] comp_of@[b]
                implies mutual(adj.deep_view(), a, b) by {
            assert(assigned@[a] && assigned@[b]);
            let r = roots[comp_of@[a] as int];
            assert(mutual(adjv, a, r));
            assert(mutual(adjv, b, r));
            lemma_reaches_trans(adjv, a, r, b);
            lemma_reaches_trans(adjv, b, r, a);
        }
        assert forall|a: int, b: int|
            0 <= a < adj.len() && 0 <= b < adj.len() && #[trigger] mutual(adj.deep_view(), a, b)
                implies comp_of@[a] == comp_of@[b] by {
            assert(assigned@[b]);
        }
    }
    (comps, comp_of)
}


/// Number of entries of `s` not yet marked in `done`.
pub open spec fn unmarked_count(s: Seq<usize>, done: Seq<bool>) -> nat
    decreases s.len(),
{
    if s.len() == 0 {
        0
    } else {
        unmarked_count(s.drop_last(), done) + (if done[s.last() as int] {
            0nat
        } else {
            1nat
        })
    }
}

/// Marking the unmarked vertex `x` lowers the count by its occurrences.
pub proof fn lemma_unmarked_count_mark(s: Seq<usize>, done: Seq<bool>, x: int)
    requires
        0 <= x < done.len(),
        !done[x],
        forall|k: int| 0 <= k < s.len() ==> #[trigger] s[k] < done.len(),
    ensures
        unmarked_count(s, done) == unmarked_count(s, done.update(x, true)) + occurrences(s, x),
    decreases s.len(),
{
    if s.len() > 0 {
        assert(s[s.len() - 1] < done.len());
        lemma_unmarked_count_mark(s.drop_last(), done, x);
    }
}

/// A zero count means every entry is marked; a positive count names an
/// unmarked entry.
pub proof fn lemma_unmarked_count_zero(s: Seq<usize>, done: Seq<bool>)
    ensures
        unmarked_count(s, done) == 0 ==> forall|k: int| 0 <= k < s.len() ==> done[#[trigger] s[k] as int],
        unmarked_count(s, done) > 0 ==> exists|k: int| 0 <= k < s.len() && !done[#[trigger] s[k] as int],
    decreases s.len(),
{
    if s.len() > 0 {
        lemma_unmarked_count_zero(s.drop_last(), done);
        if unmarked_count(s, done) == 0 {
            assert forall|k: int| 0 <= k < s.len() implies done[#[trigger] s[k] as int] by {
                if k < s.len() - 1 {
                    assert(s.drop_last()[k] == s[k]);
                }
            }
        }
        if unmarked_count(s, done) > 0 {
            if unmarked_count(s.drop_last(), done) > 0 {
                let k = choose|k: int| 0 <= k < s.drop_last().len() && !done[s.drop_last()[k] as int];
                assert(s[k] == s.drop_last()[k]);
            } else {
                assert(!done[s[s.len() - 1] as int]);
            }
        }
    }
}

pub proof fn lemma_occurrences_take_step(s: Seq<usize>, j: int, y: int)
    requires
        0 <= j < s.len(),
    ensures
        occurrences(s.take(j + 1), y) == occurrences(s.take(j), y) + (if s[j] == y {
            1nat
        } else {
            0nat
        }),
{
    assert(s.take(j + 1).drop_last() =~= s.take(j));
}

pub proof fn lemma_occurrences_take_le(s: Seq<usize>, j: int, y: int)
    requires
        0 <= j <= s.len(),
    ensures
        occurrences(s.take(j), y) <= occurrences(s, y),
    decreases s.len() - j,
{
    if j < s.len() {
        lemma_occurrences_take_step(s, j, y);
        lemma_occurrences_take_le(s, j + 1, y);
    } else {
        assert(s.take(j) =~= s);
    }
}

/// The vertices `items`: no repeats, below `m`, and closed under the
/// successor and predecessor lists.
pub open spec fn item_set_ok(items: Seq<usize>, adj: Seq<Seq<usize>>, rev: Seq<Seq<usize>>) -> bool {
    &&& items.no_duplicates()
    &&& forall|k: int| 0 <= k < items.len() ==> #[trigger] items[k] < adj.len()
    &&& forall|x: int, k: int|
        seq_has(items, x) && 0 <= k < adj[x].len() ==> seq_has(items, #[trigger] adj[x][k] as int)
    &&& forall|x: int, k: int|
        seq_has(items, x) && 0 <= k < rev[x].len() ==> seq_has(items, #[trigger] rev[x][k] as int)
}

/// `rev` holds each edge of `adj` reversed, as often as it occurs.
pub open spec fn reverse_of(adj: Seq<Seq<usize>>, rev: Seq<Seq<usize>>) -> bool {
    &&& rev.len() == adj.len()
    &&& forall|a: int, b: int|
        0 <= a < adj.len() && 0 <= b < adj.len() ==> #[trigger] occurrences(adj[a], b) == occurrences(
            rev[b],
            a,
        )
}

/// `(key, tie)` of `a` is below that of `b`.
pub open spec fn key_less(key: Seq<usize>, tie: Seq<usize>, a: int, b: int) -> bool {
    key[a] < key[b] || (key[a] == key[b] && tie[a] < tie[b])
}

/// Position in `cands` of a member with the least `(key, tie)` among those
/// that `skip` does not mark.
fn position_of_least(cands: &Vec<usize>, key: &Vec<usize>, tie: &Vec<usize>, skip: &Vec<bool>) -> (res: Option<usize>)
    requires
        key.len() == tie.len(),
        skip.len() == key.len(),
        forall|k: int| 0 <= k < cands.len() ==> #[trigger] cands@[k] < key.len(),
    ensures
        res is None ==> forall|k: int| 0 <= k < cands.len() ==> skip@[#[trigger] cands@[k] as int],
        res matches Some(i) ==> i < cands.len() && !skip@[cands@[i as int] as int] && forall|k: int|
            0 <= k < cands.len() && !skip@[#[trigger] cands@[k] as int] ==> !key_less(
                key@,
                tie@,
                cands@[k] as int,
                cands@[i as int] as int,
            ),
{
    let mut best: Option<usize> = None;
    let mut k: usize = 0;
    while k < cands.len()
        invariant
            k <= cands.len(),
            key.len() == tie.len(),
            skip.len() == key.len(),
            forall|t: int| 0 <= t < cands.len() ==> #[trigger] cands@[t] < key.len(),
            best is None ==> forall|t: int| 0 <= t < k ==> skip@[#[trigger] cands@[t] as int],
            best matches Some(i) ==> i < k && !skip@[cands@[i as int] as int] && forall|t: int|
                0 <= t < k && !skip@[#[trigger] cands@[t] as int] ==> !key_less(
                    key@,
                    tie@,
                    cands@[t] as int,
                    cands@[i as int] as int,
                ),
        decreases cands.len() - k,
    {
        let c = cands[k];
        if !skip[c] {
            match best {
                None => {
                    best = Some(k);
                },
                Some(i) => {
                    let b = cands[i];
                    if key[c] < key[b] || (key[c] == key[b] && tie[c] < tie[b]) {
                        best = Some(k);
                    }
                },
            }
        }
        k += 1;
    }
    best
}


/// Bookkeeping of the topological ordering: `order` lists the processed
/// items, `indeg` counts the unprocessed predecessors of every unprocessed
/// item, and `ready` holds every unprocessed item without one.
pub open spec fn topo_state_ok(
    items: Seq<usize>,
    adj: Seq<Seq<usize>>,
    rev: Seq<Seq<usize>>,
    processed: Seq<bool>,
    indeg: Seq<usize>,
    ready: Seq<usize>,
    order: Seq<usize>,
) -> bool {
    &&& processed.len() == adj.len()
    &&& indeg.len() == adj.len()
    &&& order.no_duplicates()
    &&& forall|k: int| 0 <= k < order.len() ==> seq_has(items, #[trigger] order[k] as int)
    &&& forall|v: int| 0 <= v < adj.len() ==> (#[trigger] processed[v] <==> seq_has(order, v))
    &&& forall|k: int| 0 <= k < ready.len() ==> seq_has(items, #[trigger] ready[k] as int)
    &&& forall|k: int|
        0 <= k < ready.len() ==> processed[#[trigger] ready[k] as int] || indeg[ready[k] as int] == 0
    &&& forall|x: int|
        seq_has(items, x) && !#[trigger] processed[x] ==> indeg[x] == unmarked_count(rev[x], processed)
    &&& forall|x: int|
        seq_has(items, x) && !#[trigger] processed[x] && indeg[x] == 0 ==> seq_has(ready, x)
    &&& acyclic(adj) ==> forall|i: int, j: int|
        0 <= i < order.len() && 0 <= j < order.len() && #[trigger] adj_edge(
            adj,
            order[j] as int,
            order[i] as int,
        ) ==> j < i
    &&& acyclic(adj) ==> forall|i: int, p: int|
        0 <= i < order.len() && seq_has(items, p) && #[trigger] adj_edge(adj, p, order[i] as int)
            ==> processed[p]
}

/// Appends `x` to `order` and takes it off the predecessor counts of its
/// successors, making those that reach zero ready.
fn process_item(
    x: usize,
    items: &Vec<usize>,
    adj: &Vec<Vec<usize>>,
    rev: &Vec<Vec<usize>>,
    processed: &mut Vec<bool>,
    indeg: &mut Vec<usize>,
    ready: &mut Vec<usize>,
    order: &mut Vec<usize>,
)
    requires
        item_set_ok(items@, adj.deep_view(), rev.deep_view()),
        adj_well_formed(adj.deep_view()),
        adj_well_formed(rev.deep_view()),
        reverse_of(adj.deep_view(), rev.deep_view()),
        topo_state_ok(items@, adj.deep_view(), rev.deep_view(), old(processed)@, old(indeg)@, old(ready)@, old(order)@),
        seq_has(items@, x as int),
        !old(processed)@[x as int],
        acyclic(adj.deep_view()) ==> forall|p: int|
            seq_has(items@, p) && #[trigger] adj_edge(adj.deep_view(), p, x as int) ==> old(processed)@[p],
    ensures
        topo_state_ok(items@, adj.deep_view(), rev.deep_view(), final(processed)@, final(indeg)@, final(ready)@, final(order)@),
        final(order)@ == old(order)@.push(x),
        final(processed)@ == old(processed)@.update(x as int, true),
{
    let ghost p0 = processed@;
    let ghost d0 = indeg@;
    let ghost r0 = ready@;
    let ghost o0 = order@;
    let ghost adjv = adj.deep_view();
    let ghost revv = rev.deep_view();
    let ghost m = adj.len() as int;
    assert(x < adj.len()) by {
        let k = choose|k: int| 0 <= k < items@.len() && items@[k] == x;
    }
    processed.set(x, true);
    order.push(x);
    let ghost p1 = processed@;
    proof {
        assert(!o0.contains(x)) by {
            if o0.contains(x) {
                let k = choose|k: int| 0 <= k < o0.len() && o0[k] == x;
                assert(seq_has(o0, x as int));
            }
        }
        assert forall|v: int| 0 <= v < m implies (#[trigger] p1[v] <==> seq_has(order@, v)) by {
            if v == x {
                assert(order@[o0.len() as int] == x);
            } else {
                if seq_has(order@, v) {
                    let k = choose|k: int| 0 <= k < order@.len() && order@[k] == v;
                    assert(k < o0.len());
                    assert(o0[k] == v);
                }
                if p0[v] {
                    let k = choose|k: int| 0 <= k < o0.len() && o0[k] == v;
                    assert(order@[k] == v);
                }
            }
        }
    }
    let len = adj[x].len();
    let mut j: usize = 0;
    while j < len
        invariant
            len == adjv[x as int].len(),
            j <= len,
            adjv == adj.deep_view(),
            revv == rev.deep_view(),
            m == adj.len(),
            x < m,
            item_set_ok(items@, adjv, revv),
            adj_well_formed(adjv),
            adj_well_formed(revv),
            reverse_of(adjv, revv),
            seq_has(items@, x as int),
            !p0[x as int],
            p0.len() == m,
            p1 == p0.update(x as int, true),
            processed@ == p1,
            indeg.len() == m,
            forall|y: int|
                seq_has(items@, y) && !#[trigger] p0[y] ==> d0[y] == unmarked_count(revv[y], p0),
            forall|y: int|
                seq_has(items@, y) && !#[trigger] p1[y] ==> indeg@[y] + occurrences(
                    adjv[x as int].take(j as int),
                    y,
                ) == unmarked_count(revv[y], p0),
            forall|k: int| 0 <= k < ready@.len() ==> seq_has(items@, #[trigger] ready@[k] as int),
            forall|k: int|
                0 <= k < ready@.len() ==> p1[#[trigger] ready@[k] as int] || indeg@[ready@[k] as int]
                    == 0,
            forall|y: int|
                seq_has(items@, y) && !#[trigger] p1[y] && indeg@[y] == 0 ==> seq_has(ready@, y),
            ready@.len() >= r0.len(),
            ready@.subrange(0, r0.len() as int) == r0,
        decreases len - j,
    {
        let next = adj[x][j];
        let ghost rb = ready@;
        let ghost db = indeg@;
        proof {
            assert(adjv[x as int][j as int] == next);
            assert(next < m);
            lemma_occurrences_take_step(adjv[x as int], j as int, next as int);
        }
        if !processed[next] {
            proof {
                assert(seq_has(items@, next as int));
                lemma_occurrences_take_le(adjv[x as int], j + 1, next as int);
                assert(occurrences(adjv[x as int], next as int) == occurrences(revv[next as int], x as int));
                lemma_unmarked_count_mark(revv[next as int], p0, x as int);
                assert(indeg@[next as int] >= 1);
            }
            let d = indeg[next] - 1;
            indeg.set(next, d);
            assert(indeg@[next as int] == d);
            if d == 0 {
                let ghost rr = ready@;
                ready.push(next);
                proof {
                    assert(ready@.subrange(0, r0.len() as int) =~= rr.subrange(0, r0.len() as int));
                    assert forall|k: int| 0 <= k < ready@.len() implies seq_has(items@, #[trigger] ready@[k] as int) by {
                        if k < rr.len() {
                            assert(ready@[k] == rr[k]);
                        }
                    }
                }
            }
        }
        proof {
            assert forall|y: int|
                seq_has(items@, y) && !#[trigger] p1[y] implies indeg@[y] + occurrences(
                    adjv[x as int].take(j + 1),
                    y,
                ) == unmarked_count(revv[y], p0) by {
                lemma_occurrences_take_step(adjv[x as int], j as int, y);
            }
            assert forall|k: int|
                0 <= k < ready@.len() implies p1[#[trigger] ready@[k] as int] || indeg@[ready@[k] as int]
                    == 0 by {
                if ready@[k] == next && !p1[next as int] {
                }
            }
            assert forall|y: int|
                seq_has(items@, y) && !#[trigger] p1[y] && indeg@[y] == 0 implies seq_has(ready@, y) by {
                if y == next {
                    if ready@.len() > rb.len() {
                        assert(ready@[rb.len() as int] == y);
                    } else {
                        assert(indeg@[y] != 0);
                    }
                } else {
                    assert(indeg@[y] == db[y]);
                    assert(seq_has(rb, y));
                    let k = choose|k: int| 0 <= k < rb.len() && rb[k] == y;
                    assert(ready@[k] == rb[k]);
                }
            }
        }
        j += 1;
    }
    proof {
        assert(adjv[x as int].take(len as int) =~= adjv[x as int]);
        assert forall|y: int|
            seq_has(items@, y) && !#[trigger] p1[y] implies indeg@[y] == unmarked_count(revv[y], p1) by {
            assert(y < m) by {
                let k = choose|k: int| 0 <= k < items@.len() && items@[k] == y;
            }
            lemma_unmarked_count_mark(revv[y], p0, x as int);
            assert(occurrences(adjv[x as int], y) == occurrences(revv[y], x as int));
        }
        assert forall|k: int| 0 <= k < order@.len() implies seq_has(items@, #[trigger] order@[k] as int) by {
            if k < o0.len() {
                assert(order@[k] == o0[k]);
            }
        }
        assert(order@.no_duplicates()) by {
            assert forall|a: int, b: int| 0 <= a < order@.len() && 0 <= b < order@.len() && a != b implies order@[a] != order@[b] by {
                if a < o0.len() && b < o0.len() {
                    assert(order@[a] == o0[a] && order@[b] == o0[b]);
                } else if a < o0.len() {
                    assert(order@[a] == o0[a]);
                    assert(seq_has(o0, o0[a] as int));
                    assert(p0[o0[a] as int]);
                } else if b < o0.len() {
                    assert(order@[b] == o0[b]);
                    assert(seq_has(o0, o0[b] as int));
                    assert(p0[o0[b] as int]);
                }
            }
        }
        if acyclic(adjv) {
            assert forall|i: int, jj: int|
                0 <= i < order@.len() && 0 <= jj < order@.len() && #[trigger] adj_edge(
                    adjv,
                    order@[jj] as int,
                    order@[i] as int,
                ) implies jj < i by {
                if i < o0.len() && jj < o0.len() {
                    assert(order@[i] == o0[i] && order@[jj] == o0[jj]);
                } else if i < o0.len() {
                    assert(order@[i] == o0[i]);
                    assert(order@[jj] == x);
                    assert(p0[x as int]);
                }
            }
            assert forall|i: int, pp: int|
                0 <= i < order@.len() && seq_has(items@, pp) && #[trigger] adj_edge(adjv, pp, order@[i] as int)
                    implies p1[pp] by {
                if i < o0.len() {
                    assert(order@[i] == o0[i]);
                    assert(p0[pp]);
                } else {
                    assert(order@[i] == x);
                }
            }
        }
    }
}


/// A repeat-free part `a` of the repeat-free `b` either misses some entry of
/// `b` or is as long as `b`.
pub proof fn lemma_sub_sequence_count(a: Seq<usize>, b: Seq<usize>)
    requires
        a.no_duplicates(),
        b.no_duplicates(),
        forall|k: int| 0 <= k < a.len() ==> seq_has(b, #[trigger] a[k] as int),
    ensures
        a.len() <= b.len(),
        a.len() < b.len() ==> exists|k: int| 0 <= k < b.len() && !seq_has(a, #[trigger] b[k] as int),
        a.len() == b.len() ==> forall|k: int| 0 <= k < b.len() ==> seq_has(a, #[trigger] b[k] as int),
{
    a.unique_seq_to_set();
    b.unique_seq_to_set();
    assert(a.to_set().subset_of(b.to_set())) by {
        assert forall|v: usize| a.to_set().contains(v) implies b.to_set().contains(v) by {
            let k = choose|k: int| 0 <= k < a.len() && a[k] == v;
            assert(seq_has(b, a[k] as int));
            let t = choose|t: int| 0 <= t < b.len() && b[t] == a[k];
            assert(b.contains(v));
        }
    }
    lemma_len_subset(a.to_set(), b.to_set());
    if a.len() < b.len() {
        if forall|k: int| 0 <= k < b.len() ==> seq_has(a, #[trigger] b[k] as int) {
            assert(b.to_set().subset_of(a.to_set())) by {
                assert forall|v: usize| b.to_set().contains(v) implies a.to_set().contains(v) by {
                    let k = choose|k: int| 0 <= k < b.len() && b[k] == v;
                    assert(seq_has(a, b[k] as int));
                    let t = choose|t: int| 0 <= t < a.len() && a[t] == b[k];
                    assert(a.contains(v));
                }
            }
            lemma_len_subset(b.to_set(), a.to_set());
        }
    }
    if a.len() == b.len() {
        assert forall|k: int| 0 <= k < b.len() implies seq_has(a, #[trigger] b[k] as int) by {
            if !seq_has(a, b[k] as int) {
                assert(!a.to_set().contains(b[k]));
                assert(a.to_set().subset_of(b.to_set().remove(b[k])));
                lemma_len_subset(a.to_set(), b.to_set().remove(b[k]));
            }
        }
    }
}

pub proof fn lemma_unmarked_count_none(s: Seq<usize>, done: Seq<bool>)
    requires
        forall|k: int| 0 <= k < s.len() ==> !done[#[trigger] s[k] as int],
    ensures
        unmarked_count(s, done) == s.len(),
    decreases s.len(),
{
    if s.len() > 0 {
        assert forall|k: int| 0 <= k < s.drop_last().len() implies !done[#[trigger] s.drop_last()[k] as int] by {
            assert(s.drop_last()[k] == s[k]);
        }
        lemma_unmarked_count_none(s.drop_last(), done);
        assert(!done[s[s.len() - 1] as int]);
    }
}

/// `y` is an item not in `placed` whose predecessors all are.
pub open spec fn ready_after(items: Seq<usize>, adj: Seq<Seq<usize>>, placed: Seq<usize>, y: int) -> bool {
    &&& seq_has(items, y)
    &&& !seq_has(placed, y)
    &&& forall|p: int| #[trigger] adj_edge(adj, p, y) ==> seq_has(placed, p)
}

/// After `placed`, `x` is the item that goes next: the least by `(key,
/// tie)` among the ready items, or, when none is ready, among all items not
/// yet placed.
pub open spec fn picked_least(
    items: Seq<usize>,
    adj: Seq<Seq<usize>>,
    key: Seq<usize>,
    tie: Seq<usize>,
    placed: Seq<usize>,
    x: int,
) -> bool {
    if exists|y: int| #[trigger] ready_after(items, adj, placed, y) {
        &&& ready_after(items, adj, placed, x)
        &&& forall|y: int| #[trigger] ready_after(items, adj, placed, y) ==> !key_less(key, tie, y, x)
    } else {
        &&& seq_has(items, x)
        &&& !seq_has(placed, x)
        &&& forall|y: int| seq_has(items, y) && !seq_has(placed, y) ==> !key_less(key, tie, y, x)
    }
}

/// An unprocessed item is ready exactly when its count of unprocessed
/// predecessors is zero.
proof fn lemma_ready_count(
    items: Seq<usize>,
    adj: Seq<Seq<usize>>,
    rev: Seq<Seq<usize>>,
    processed: Seq<bool>,
    order: Seq<usize>,
    x: int,
)
    requires
        item_set_ok(items, adj, rev),
        adj_well_formed(rev),
        reverse_of(adj, rev),
        processed.len() == adj.len(),
        forall|v: int| 0 <= v < adj.len() ==> (#[trigger] processed[v] <==> seq_has(order, v)),
        seq_has(items, x),
    ensures
        (forall|p: int| #[trigger] adj_edge(adj, p, x) ==> seq_has(order, p)) <==> unmarked_count(rev[x], processed) == 0,
{
    let m = adj.len() as int;
    assert(x < m) by {
        let t = choose|t: int| 0 <= t < items.len() && items[t] == x;
    }
    lemma_unmarked_count_zero(rev[x], processed);
    if unmarked_count(rev[x], processed) == 0 {
        assert forall|p: int| #[trigger] adj_edge(adj, p, x) implies seq_has(order, p) by {
            lemma_occurrences_contains(adj[p], x);
            assert(occurrences(adj[p], x) == occurrences(rev[x], p));
            lemma_occurrences_contains(rev[x], p);
            let q = choose|q: int| 0 <= q < rev[x].len() && rev[x][q] == p;
            assert(processed[rev[x][q] as int]);
        }
    } else {
        let q = choose|q: int| 0 <= q < rev[x].len() && !processed[#[trigger] rev[x][q] as int];
        let p = rev[x][q] as int;
        assert(p < m);
        lemma_occurrences_contains(rev[x], p);
        assert(occurrences(adj[p], x) == occurrences(rev[x], p));
        lemma_occurrences_contains(adj[p], x);
        assert(adj_edge(adj, p, x));
        assert(!seq_has(order, p));
    }
}

/// Orders `items` so that an item comes after its predecessors: among the
/// items whose predecessors are all placed, the least by `(key, tie)` goes
/// next; when none is left (the graph has a cycle), the least unplaced item
/// goes next. The result lists every item once; on a graph without cycles
/// every edge points forward in it.
pub fn stable_topology_order(
    items: &Vec<usize>,
    adj: &Vec<Vec<usize>>,
    rev: &Vec<Vec<usize>>,
    key: &Vec<usize>,
    tie: &Vec<usize>,
) -> (order: Vec<usize>)
    requires
        item_set_ok(items@, adj.deep_view(), rev.deep_view()),
        adj_well_formed(adj.deep_view()),
        adj_well_formed(rev.deep_view()),
        reverse_of(adj.deep_view(), rev.deep_view()),
        key.len() == adj.len(),
        tie.len() == adj.len(),
    ensures
        order@.len() == items@.len(),
        order@.no_duplicates(),
        forall|k: int| 0 <= k < order@.len() ==> seq_has(items@, #[trigger] order@[k] as int),
        forall|k: int| 0 <= k < items@.len() ==> seq_has(order@, #[trigger] items@[k] as int),
        acyclic(adj.deep_view()) ==> forall|i: int, j: int|
            0 <= i < order@.len() && 0 <= j < order@.len() && #[trigger] adj_edge(
                adj.deep_view(),
                order@[j] as int,
                order@[i] as int,
            ) ==> j < i,
        forall|s: int|
            0 <= s < order@.len() ==> #[trigger] picked_least(
                items@,
                adj.deep_view(),
                key@,
                tie@,
                order@.take(s),
                order@[s] as int,
            ),
{
    let ghost adjv = adj.deep_view();
    let ghost revv = rev.deep_view();
    let m = adj.len();
    let mut processed: Vec<bool> = Vec::new();
    let mut indeg: Vec<usize> = Vec::new();
    let mut i: usize = 0;
    while i < m
        invariant
            i <= m,
            processed.len() == i,
            indeg.len() == i,
            forall|j: int| 0 <= j < i ==> !(#[trigger] processed@[j]),
        decreases m - i,
    {
        processed.push(false);
        indeg.push(0);
        i += 1;
    }
    let mut ready: Vec<usize> = Vec::new();
    let mut k: usize = 0;
    while k < items.len()
        invariant
            k <= items.len(),
            m == adj.len(),
            revv == rev.deep_view(),
            adjv == adj.deep_view(),
            rev.len() == m,
            item_set_ok(items@, adjv, revv),
            adj_well_formed(revv),
            processed.len() == m,
            indeg.len() == m,
            forall|j: int| 0 <= j < m ==> !(#[trigger] processed@[j]),
            forall|t: int| 0 <= t < k ==> indeg@[#[trigger] items@[t] as int] == revv[items@[t] as int].len(),
            forall|t: int| 0 <= t < ready@.len() ==> seq_has(items@, #[trigger] ready@[t] as int),
            forall|t: int| 0 <= t < ready@.len() ==> indeg@[#[trigger] ready@[t] as int] == 0,
            forall|t: int| 0 <= t < ready@.len() ==> exists|q: int| 0 <= q < k && items@[q] == #[trigger] ready@[t],
            forall|t: int| 0 <= t < k && revv[#[trigger] items@[t] as int].len() == 0 ==> seq_has(ready@, items@[t] as int),
        decreases items.len() - k,
    {
        let x = items[k];
        proof {
            assert(x < m);
        }
        let d = rev[x].len();
        let ghost d0 = indeg@;
        let ghost rr = ready@;
        indeg.set(x, d);
        if d == 0 {
            ready.push(x);
        }
        proof {
            assert(seq_has(items@, x as int));
            assert forall|t: int| 0 <= t <= k implies indeg@[#[trigger] items@[t] as int] == revv[items@[t] as int].len() by {
                if t < k {
                    assert(items@[t] != x);
                }
            }
            assert forall|t: int| 0 <= t < ready@.len() implies seq_has(items@, #[trigger] ready@[t] as int) by {
                if t < rr.len() {
                    assert(ready@[t] == rr[t]);
                }
            }
            assert forall|t: int| 0 <= t < ready@.len() implies indeg@[#[trigger] ready@[t] as int] == 0 by {
                if t < rr.len() {
                    assert(ready@[t] == rr[t]);
                    let q = choose|q: int| 0 <= q < k && items@[q] == rr[t];
                    assert(items@[q] != items@[k as int]);
                }
            }
            assert forall|t: int| 0 <= t < ready@.len() implies exists|q: int| 0 <= q < k + 1 && items@[q] == #[trigger] ready@[t] by {
                if t < rr.len() {
                    assert(ready@[t] == rr[t]);
                    let q = choose|q: int| 0 <= q < k && items@[q] == rr[t];
                    assert(items@[q] == ready@[t]);
                } else {
                    assert(items@[k as int] == ready@[t]);
                }
            }
            assert forall|t: int| 0 <= t <= k && revv[#[trigger] items@[t] as int].len() == 0 implies seq_has(ready@, items@[t] as int) by {
                if t < k {
                    let q = choose|q: int| 0 <= q < rr.len() && rr[q] == items@[t];
                    assert(ready@[q] == rr[q]);
                } else {
                    assert(ready@[rr.len() as int] == x);
                }
            }
        }
        k += 1;
    }
    let mut order: Vec<usize> = Vec::new();
    proof {
        assert forall|x: int| seq_has(items@, x) && !#[trigger] processed@[x] implies indeg@[x] == unmarked_count(revv[x], processed@) by {
            let t = choose|t: int| 0 <= t < items@.len() && items@[t] == x;
            assert(indeg@[items@[t] as int] == revv[items@[t] as int].len());
            assert forall|q: int| 0 <= q < revv[x].len() implies !processed@[#[trigger] revv[x][q] as int] by {
                assert(revv[x][q] < m);
            }
            lemma_unmarked_count_none(revv[x], processed@);
        }
        assert forall|x: int| seq_has(items@, x) && !#[trigger] processed@[x] && indeg@[x] == 0 implies seq_has(ready@, x) by {
            let t = choose|t: int| 0 <= t < items@.len() && items@[t] == x;
            assert(indeg@[items@[t] as int] == revv[items@[t] as int].len());
        }
        assert forall|v: int| 0 <= v < m implies (#[trigger] processed@[v] <==> seq_has(order@, v)) by {
        }
        assert(topo_state_ok(items@, adjv, revv, processed@, indeg@, ready@, order@));
    }
    while order.len() < items.len()
        invariant
            m == adj.len(),
            revv == rev.deep_view(),
            adjv == adj.deep_view(),
            key.len() == m,
            tie.len() == m,
            item_set_ok(items@, adjv, revv),
            adj_well_formed(adjv),
            adj_well_formed(revv),
            reverse_of(adjv, revv),
            topo_state_ok(items@, adjv, revv, processed@, indeg@, ready@, order@),
            forall|s: int| 0 <= s < order@.len() ==> #[trigger] picked_least(items@, adjv, key@, tie@, order@.take(s), order@[s] as int),
        decreases items.len() - order.len(),
    {
        proof {
            lemma_sub_sequence_count(order@, items@);
        }
        let ghost o0 = order@;
        let pick = position_of_least(&ready, key, tie, &processed);
        match pick {
            Some(idx) => {
                let x = ready[idx];
                proof {
                    assert(seq_has(items@, x as int));
                    assert(x < m) by {
                        let t = choose|t: int| 0 <= t < items@.len() && items@[t] == x;
                    }
                    assert(indeg@[x as int] == 0);
                    lemma_unmarked_count_zero(revv[x as int], processed@);
                    if acyclic(adjv) {
                        assert forall|p: int| seq_has(items@, p) && #[trigger] adj_edge(adjv, p, x as int) implies processed@[p] by {
                            assert(p < m) by {
                                let t = choose|t: int| 0 <= t < items@.len() && items@[t] == p;
                            }
                            lemma_occurrences_contains(adjv[p], x as int);
                            assert(occurrences(adjv[p], x as int) == occurrences(revv[x as int], p));
                            lemma_occurrences_contains(revv[x as int], p);
                            let q = choose|q: int| 0 <= q < revv[x as int].len() && revv[x as int][q] == p;
                            assert(processed@[revv[x as int][q] as int]);
                        }
                    }
                }
                proof {
                    lemma_ready_count(items@, adjv, revv, processed@, order@, x as int);
                    assert(ready_after(items@, adjv, o0, x as int));
                    assert forall|y: int| #[trigger] ready_after(items@, adjv, o0, y) implies !key_less(key@, tie@, y, x as int) by {
                        lemma_ready_count(items@, adjv, revv, processed@, order@, y);
                        assert(y < m) by {
                            let t = choose|t: int| 0 <= t < items@.len() && items@[t] == y;
                        }
                        assert(!processed@[y]);
                        let q = choose|q: int| 0 <= q < ready@.len() && ready@[q] == y;
                        assert(!processed@[ready@[q] as int]);
                    }
                    assert(picked_least(items@, adjv, key@, tie@, o0, x as int));
                }
                process_item(x, items, adj, rev, &mut processed, &mut indeg, &mut ready, &mut order);
                proof {
                    assert(order@.take(o0.len() as int) =~= o0);
                    assert forall|s: int| 0 <= s < order@.len() implies #[trigger] picked_least(
                        items@,
                        adjv,
                        key@,
                        tie@,
                        order@.take(s),
                        order@[s] as int,
                    ) by {
                        if s < o0.len() {
                            assert(order@.take(s) =~= o0.take(s));
                        }
                    }
                }
            },
            None => {
                let fallback = position_of_least(items, key, tie, &processed);
                proof {
                    assert forall|t: int| 0 <= t < items@.len() implies #[trigger] items@[t] < key.len() by {
                    }
                }
                proof {
                    let tk = choose|tk: int| 0 <= tk < items@.len() && !seq_has(order@, #[trigger] items@[tk] as int);
                    assert(!processed@[items@[tk] as int]);
                    assert(fallback is Some);
                    if acyclic(adjv) {
                        let sset = Set::new(|v: int| seq_has(items@, v) && !processed@[v]);
                        assert(sset.contains(items@[tk] as int));
                        assert forall|v: int| #[trigger] sset.contains(v) implies 0 <= v < adjv.len() by {
                            let t = choose|t: int| 0 <= t < items@.len() && items@[t] == v;
                        }
                        assert(closed_backwards(adjv, sset)) by {
                            assert forall|v: int| #[trigger] sset.contains(v) implies exists|p: int| sset.contains(p) && adj_edge(adjv, p, v) by {
                                assert(v < m) by {
                                    let t = choose|t: int| 0 <= t < items@.len() && items@[t] == v;
                                }
                                if indeg@[v] == 0 {
                                    let q = choose|q: int| 0 <= q < ready@.len() && ready@[q] == v;
                                    assert(processed@[ready@[q] as int]);
                                }
                                lemma_unmarked_count_zero(revv[v], processed@);
                                let q = choose|q: int| 0 <= q < revv[v].len() && !processed@[#[trigger] revv[v][q] as int];
                                let p = revv[v][q] as int;
                                assert(seq_has(items@, p));
                                assert(p < m);
                                lemma_occurrences_contains(revv[v], p);
                                assert(occurrences(adjv[p], v) == occurrences(revv[v], p));
                                lemma_occurrences_contains(adjv[p], v);
                                assert(sset.contains(p));
                            }
                        }
                        lemma_acyclic_has_source(adjv, sset, items@[tk] as int);
                    }
                }
                let fi = fallback.unwrap();
                let x = items[fi];
                proof {
                    assert(!exists|y: int| #[trigger] ready_after(items@, adjv, o0, y)) by {
                        if exists|y: int| #[trigger] ready_after(items@, adjv, o0, y) {
                            let y = choose|y: int| #[trigger] ready_after(items@, adjv, o0, y);
                            lemma_ready_count(items@, adjv, revv, processed@, order@, y);
                            assert(y < m) by {
                                let t = choose|t: int| 0 <= t < items@.len() && items@[t] == y;
                            }
                            assert(!processed@[y]);
                            let q = choose|q: int| 0 <= q < ready@.len() && ready@[q] == y;
                            assert(processed@[ready@[q] as int]);
                        }
                    }
                    assert(seq_has(items@, x as int));
                    assert(x < m);
                    assert(!seq_has(o0, x as int));
                    assert forall|y: int| seq_has(items@, y) && !seq_has(o0, y) implies !key_less(key@, tie@, y, x as int) by {
                        let t = choose|t: int| 0 <= t < items@.len() && items@[t] == y;
                        assert(y < m);
                        assert(!processed@[items@[t] as int]);
                    }
                    assert(picked_least(items@, adjv, key@, tie@, o0, x as int));
                }
                process_item(x, items, adj, rev, &mut processed, &mut indeg, &mut ready, &mut order);
                proof {
                    assert(order@.take(o0.len() as int) =~= o0);
                    assert forall|s: int| 0 <= s < order@.len() implies #[trigger] picked_least(
                        items@,
                        adjv,
                        key@,
                        tie@,
                        order@.take(s),
                        order@[s] as int,
                    ) by {
                        if s < o0.len() {
                            assert(order@.take(s) =~= o0.take(s));
                        }
                    }
                }
            },
        }
    }
    proof {
        lemma_sub_sequence_count(order@, items@);
    }
    order
}


/// `order` lists distinct vertices below `n`, and every successor of a
/// listed vertex is listed.
pub open spec fn order_closed(order: Seq<usize>, adj: Seq<Seq<usize>>) -> bool {
    &&& order.no_duplicates()
    &&& forall|k: int| 0 <= k < order.len() ==> #[trigger] order[k] < adj.len()
    &&& forall|i: int, t: int|
        0 <= i < order.len() && 0 <= t < adj[order[i] as int].len() ==> seq_has(
            order,
            #[trigger] adj[order[i] as int][t] as int,
        )
}

/// The layer of `order[q]` is 0, or one more than that of an earlier vertex
/// among the first `lim` with an edge into it.
pub open spec fn rank_justified(adj: Seq<Seq<usize>>, order: Seq<usize>, ranks: Seq<usize>, q: int, lim: int) -> bool {
    ranks[order[q] as int] == 0 || exists|a: int|
        0 <= a < q && a < lim && #[trigger] adj_edge(adj, order[a] as int, order[q] as int) && ranks[order[q] as int]
            == ranks[order[a] as int] + 1
}

/// Gives the vertices of `order` layers: walking `order`, every successor
/// that comes later is put at least one layer below. A vertex's layer is at
/// most its position, every edge that points forward in `order` goes down
/// at least one layer, and a vertex's layer is 0 or exactly one below an
/// earlier vertex with an edge into it: the longest path along the order.
pub fn layered_ranks_from_order(order: &Vec<usize>, adj: &Vec<Vec<usize>>, ranks: &mut Vec<usize>)
    requires
        order_closed(order@, adj.deep_view()),
        old(ranks).len() == adj.len(),
        forall|k: int| 0 <= k < order@.len() ==> old(ranks)@[#[trigger] order@[k] as int] == 0,
    ensures
        final(ranks).len() == adj.len(),
        forall|v: int|
            0 <= v < adj.len() && !seq_has(order@, v) ==> #[trigger] final(ranks)@[v] == old(ranks)@[v],
        forall|q: int| 0 <= q < order@.len() ==> final(ranks)@[#[trigger] order@[q] as int] <= q,
        forall|a: int, b: int|
            0 <= a < b < order@.len() && #[trigger] adj_edge(
                adj.deep_view(),
                order@[a] as int,
                order@[b] as int,
            ) ==> final(ranks)@[order@[b] as int] >= final(ranks)@[order@[a] as int] + 1,
        forall|q: int|
            0 <= q < order@.len() ==> #[trigger] final(ranks)@[order@[q] as int] == 0 || exists|a: int|
                0 <= a < q && #[trigger] adj_edge(adj.deep_view(), order@[a] as int, order@[q] as int)
                    && final(ranks)@[order@[q] as int] == final(ranks)@[order@[a] as int] + 1,
{
    let ghost adjv = adj.deep_view();
    let ghost r0 = ranks@;
    let n = adj.len();
    let mut pos: Vec<usize> = Vec::new();
    let mut i: usize = 0;
    while i < n
        invariant
            i <= n,
            pos.len() == i,
        decreases n - i,
    {
        pos.push(0);
        i += 1;
    }
    let mut k: usize = 0;
    while k < order.len()
        invariant
            k <= order.len(),
            n == adj.len(),
            pos.len() == n,
            order_closed(order@, adjv),
            adjv == adj.deep_view(),
            forall|q: int| 0 <= q < k ==> pos@[#[trigger] order@[q] as int] == q,
        decreases order.len() - k,
    {
        let v = order[k];
        let ghost p0 = pos@;
        pos.set(v, k);
        proof {
            assert forall|q: int| 0 <= q <= k implies pos@[#[trigger] order@[q] as int] == q by {
                if q < k {
                    assert(order@[q] != order@[k as int]);
                }
            }
        }
        k += 1;
    }
    let mut i: usize = 0;
    while i < order.len()
        invariant
            i <= order.len(),
            n == adj.len(),
            pos.len() == n,
            ranks.len() == n,
            order_closed(order@, adjv),
            adjv == adj.deep_view(),
            forall|q: int| 0 <= q < order@.len() ==> pos@[#[trigger] order@[q] as int] == q,
            forall|v: int| 0 <= v < n && !seq_has(order@, v) ==> #[trigger] ranks@[v] == r0[v],
            forall|q: int| 0 <= q < order@.len() ==> ranks@[#[trigger] order@[q] as int] <= q
                && ranks@[order@[q] as int] <= i,
            forall|a: int, b: int|
                0 <= a < b < order@.len() && a < i && #[trigger] adj_edge(
                    adjv,
                    order@[a] as int,
                    order@[b] as int,
                ) ==> ranks@[order@[b] as int] >= ranks@[order@[a] as int] + 1,
            forall|q: int| 0 <= q < order@.len() ==> #[trigger] rank_justified(adjv, order@, ranks@, q, i as int),
        decreases order.len() - i,
    {
        let node = order[i];
        let rank = ranks[node];
        let len = adj[node].len();
        let ghost rk0 = ranks@;
        proof {
            assert forall|q: int| 0 <= q < order@.len() implies #[trigger] rank_justified(adjv, order@, ranks@, q, i + 1) by {
                assert(rank_justified(adjv, order@, ranks@, q, i as int));
                if ranks@[order@[q] as int] != 0 {
                    let a = choose|a: int|
                        0 <= a < q && a < i && #[trigger] adj_edge(adjv, order@[a] as int, order@[q] as int)
                            && ranks@[order@[q] as int] == ranks@[order@[a] as int] + 1;
                    assert(adj_edge(adjv, order@[a] as int, order@[q] as int));
                }
            }
        }
        let mut j: usize = 0;
        while j < len
            invariant
                j <= len,
                i < order.len(),
                node == order@[i as int],
                len == adjv[node as int].len(),
                n == adj.len(),
                pos.len() == n,
                ranks.len() == n,
                order_closed(order@, adjv),
                adjv == adj.deep_view(),
                rank == rk0[node as int],
                rank <= i,
                forall|q: int| 0 <= q < order@.len() ==> pos@[#[trigger] order@[q] as int] == q,
                forall|q: int| 0 <= q < order@.len() && q <= i ==> ranks@[#[trigger] order@[q] as int] == rk0[order@[q] as int],
                forall|v: int| 0 <= v < n && !seq_has(order@, v) ==> #[trigger] ranks@[v] == rk0[v],
                forall|q: int| 0 <= q < order@.len() ==> ranks@[#[trigger] order@[q] as int] >= rk0[order@[q] as int],
                forall|q: int| 0 <= q < order@.len() ==> ranks@[#[trigger] order@[q] as int] <= q
                    && ranks@[order@[q] as int] <= i + 1,
                forall|t: int|
                    0 <= t < j && pos@[#[trigger] adjv[node as int][t] as int] > i ==> ranks@[adjv[node as int][t] as int] >= rank + 1,
                forall|q: int| 0 <= q < order@.len() ==> #[trigger] rank_justified(adjv, order@, ranks@, q, i + 1),
            decreases len - j,
        {
            let next = adj[node][j];
            proof {
                assert(adjv[node as int][j as int] == next);
                assert(seq_has(order@, next as int));
            }
            let ghost qn = choose|q: int| 0 <= q < order@.len() && order@[q] == next;
            let to_idx = pos[next];
            proof {
                assert(pos@[order@[qn] as int] == qn);
            }
            if to_idx > i {
                if ranks[next] < rank + 1 {
                    let ghost rb = ranks@;
                    ranks.set(next, rank + 1);
                    proof {
                        assert(adj_edge(adjv, order@[i as int] as int, order@[qn] as int));
                        assert forall|q: int| 0 <= q < order@.len() implies #[trigger] rank_justified(adjv, order@, ranks@, q, i + 1) by {
                            if q == qn {
                                assert(ranks@[order@[i as int] as int] == rank);
                                assert(adj_edge(adjv, order@[i as int] as int, order@[q] as int));
                            } else {
                                assert(order@[q] != order@[qn]);
                                assert(rank_justified(adjv, order@, rb, q, i + 1));
                                if rb[order@[q] as int] != 0 {
                                    let a = choose|a: int|
                                        0 <= a < q && a < i + 1 && #[trigger] adj_edge(adjv, order@[a] as int, order@[q] as int)
                                            && rb[order@[q] as int] == rb[order@[a] as int] + 1;
                                    assert(a <= i && i < qn);
                                    assert(order@[a] != order@[qn]);
                                    assert(adj_edge(adjv, order@[a] as int, order@[q] as int));
                                }
                            }
                        }
                        assert forall|q: int| 0 <= q < order@.len() && q != qn implies ranks@[#[trigger] order@[q] as int] == rb[order@[q] as int] by {
                            assert(order@[q] != order@[qn]);
                        }
                        assert forall|v: int| 0 <= v < n && !seq_has(order@, v) implies #[trigger] ranks@[v] == rk0[v] by {
                            assert(v != next);
                        }
                    }
                }
            }
            j += 1;
        }
        proof {
            assert forall|q: int| 0 <= q < order@.len() implies #[trigger] rank_justified(adjv, order@, ranks@, q, i + 1) by {}
            assert forall|a: int, b: int|
                0 <= a < b < order@.len() && a < i + 1 && #[trigger] adj_edge(
                    adjv,
                    order@[a] as int,
                    order@[b] as int,
                ) implies ranks@[order@[b] as int] >= ranks@[order@[a] as int] + 1 by {
                if a < i {
                    assert(rk0[order@[b] as int] >= rk0[order@[a] as int] + 1);
                    assert(ranks@[order@[a] as int] == rk0[order@[a] as int]);
                } else {
                    let t = choose|t: int| 0 <= t < adjv[node as int].len() && adjv[node as int][t] == order@[b];
                    assert(pos@[order@[b] as int] == b);
                    assert(ranks@[order@[a] as int] == rank);
                }
            }
        }
        i += 1;
    }
    proof {
        assert forall|q: int| 0 <= q < order@.len() implies #[trigger] ranks@[order@[q] as int] == 0 || exists|a: int|
            0 <= a < q && #[trigger] adj_edge(adjv, order@[a] as int, order@[q] as int) && ranks@[order@[q] as int]
                == ranks@[order@[a] as int] + 1 by {
            assert(rank_justified(adjv, order@, ranks@, q, i as int));
            if ranks@[order@[q] as int] != 0 {
                let a = choose|a: int|
                    0 <= a < q && a < i && #[trigger] adj_edge(adjv, order@[a] as int, order@[q] as int)
                        && ranks@[order@[q] as int] == ranks@[order@[a] as int] + 1;
                assert(adj_edge(adjv, order@[a] as int, order@[q] as int));
            }
        }
    }
}


/// Every edge of `sub` is an edge of `adj`.
pub open spec fn subgraph_of(sub: Seq<Seq<usize>>, adj: Seq<Seq<usize>>) -> bool {
    &&& sub.len() == adj.len()
    &&& forall|a: int, b: int| #[trigger] adj_edge(sub, a, b) ==> adj_edge(adj, a, b)
}

pub proof fn lemma_acyclic_subgraph(sub: Seq<Seq<usize>>, adj: Seq<Seq<usize>>)
    requires
        subgraph_of(sub, adj),
        acyclic(adj),
    ensures
        acyclic(sub),
{
    assert forall|p: Seq<int>| #[trigger] is_path(sub, p) implies p[0] != p[p.len() - 1] by {
        assert forall|i: int| 0 <= i < p.len() - 1 implies #[trigger] path_step(adj, p, i) by {
            assert(path_step(sub, p, i));
        }
        assert(is_path(adj, p));
    }
}

/// A graph whose edges all go to larger vertices has no cycle.
pub proof fn lemma_acyclic_increasing(adj: Seq<Seq<usize>>)
    requires
        forall|a: int, b: int| #[trigger] adj_edge(adj, a, b) ==> a < b,
    ensures
        acyclic(adj),
{
    assert forall|p: Seq<int>| #[trigger] is_path(adj, p) implies p[0] != p[p.len() - 1] by {
        assert forall|i: int| 1 <= i < p.len() implies p[0] < #[trigger] p[i] by {
            lemma_path_increasing(adj, p, i);
        }
    }
}

proof fn lemma_path_increasing(adj: Seq<Seq<usize>>, p: Seq<int>, i: int)
    requires
        forall|a: int, b: int| #[trigger] adj_edge(adj, a, b) ==> a < b,
        is_path(adj, p),
        1 <= i < p.len(),
    ensures
        p[0] < p[i],
    decreases i,
{
    assert(path_step(adj, p, i - 1));
    if i > 1 {
        lemma_path_increasing(adj, p, i - 1);
    }
}

/// The edge list has an edge from `a` to `b`.
pub open spec fn has_edge(edges: Seq<(usize, usize)>, a: int, b: int) -> bool {
    exists|k: int| 0 <= k < edges.len() && edges[k].0 == a && edges[k].1 == b
}

/// Step `i` of `p` is an edge of the list.
pub open spec fn edge_step(edges: Seq<(usize, usize)>, p: Seq<int>, i: int) -> bool {
    has_edge(edges, p[i], p[i + 1])
}

/// `p` is a walk along the edge list (one vertex alone is a walk too).
pub open spec fn edge_walk(edges: Seq<(usize, usize)>, p: Seq<int>) -> bool {
    &&& p.len() >= 1
    &&& forall|i: int| 0 <= i < p.len() - 1 ==> #[trigger] edge_step(edges, p, i)
}

/// `b` is reached from `a` along the edge list (every vertex reaches
/// itself).
pub open spec fn edges_reach(edges: Seq<(usize, usize)>, a: int, b: int) -> bool {
    exists|p: Seq<int>| #[trigger] edge_walk(edges, p) && p[0] == a && p[p.len() - 1] == b
}

/// No walk along the edge list returns to its start.
pub open spec fn edges_acyclic(edges: Seq<(usize, usize)>) -> bool {
    forall|p: Seq<int>|
        p.len() >= 2 && (forall|i: int| 0 <= i < p.len() - 1 ==> #[trigger] edge_step(edges, p, i))
            ==> p[0] != p[p.len() - 1]
}

pub proof fn lemma_adjacency_acyclic(
    adj: Seq<Seq<usize>>,
    rev: Seq<Seq<usize>>,
    edges: Seq<(usize, usize)>,
    n: int,
)
    requires
        adjacency_of(adj, rev, edges, n),
        edges_acyclic(edges),
    ensures
        acyclic(adj),
{
    assert forall|p: Seq<int>| #[trigger] is_path(adj, p) implies p[0] != p[p.len() - 1] by {
        assert forall|i: int| 0 <= i < p.len() - 1 implies #[trigger] edge_step(edges, p, i) by {
            assert(path_step(adj, p, i));
            lemma_adjacency_edge(adj, rev, edges, n, p[i], p[i + 1]);
        }
    }
}

pub proof fn lemma_occurrences_no_duplicates(s: Seq<usize>, x: int)
    requires
        s.no_duplicates(),
    ensures
        occurrences(s, x) == (if seq_has(s, x) {
            1nat
        } else {
            0nat
        }),
    decreases s.len(),
{
    lemma_occurrences_contains(s, x);
    if s.len() > 0 {
        let t = s.drop_last();
        assert(t.no_duplicates());
        lemma_occurrences_no_duplicates(t, x);
        if s.last() == x && seq_has(t, x) {
            let k = choose|k: int| 0 <= k < t.len() && t[k] == x;
            assert(s[k] == s[s.len() - 1]);
        }
        if seq_has(s, x) && s.last() != x {
            let k = choose|k: int| 0 <= k < s.len() && s[k] == x;
            assert(k < s.len() - 1);
            assert(t[k] == x);
        }
    }
}

/// The entries of `list` whose component is `c`, in order.
pub fn entries_in_component(list: &Vec<usize>, comp_of: &Vec<usize>, c: usize) -> (out: Vec<usize>)
    requires
        forall|k: int| 0 <= k < list@.len() ==> #[trigger] list@[k] < comp_of.len(),
    ensures
        forall|x: int|
            0 <= x < comp_of.len() ==> #[trigger] occurrences(out@, x) == (if comp_of@[x] == c {
                occurrences(list@, x)
            } else {
                0
            }),
        forall|k: int|
            0 <= k < out@.len() ==> #[trigger] out@[k] < comp_of.len() && comp_of@[out@[k] as int] == c
                && seq_has(list@, out@[k] as int),
{
    let mut out: Vec<usize> = Vec::new();
    let mut j: usize = 0;
    while j < list.len()
        invariant
            j <= list.len(),
            forall|k: int| 0 <= k < list@.len() ==> #[trigger] list@[k] < comp_of.len(),
            forall|x: int|
                0 <= x < comp_of.len() ==> #[trigger] occurrences(out@, x) == (if comp_of@[x] == c {
                    occurrences(list@.take(j as int), x)
                } else {
                    0
                }),
            forall|k: int|
                0 <= k < out@.len() ==> #[trigger] out@[k] < comp_of.len() && comp_of@[out@[k] as int]
                    == c && seq_has(list@, out@[k] as int),
        decreases list.len() - j,
    {
        let w = list[j];
        let ghost o0 = out@;
        if comp_of[w] == c {
            out.push(w);
        }
        proof {
            assert forall|x: int| 0 <= x < comp_of.len() implies #[trigger] occurrences(out@, x) == (if comp_of@[x] == c {
                occurrences(list@.take(j + 1), x)
            } else {
                0
            }) by {
                lemma_occurrences_take_step(list@, j as int, x);
                assert(occurrences(o0, x) == (if comp_of@[x] == c {
                    occurrences(list@.take(j as int), x)
                } else {
                    0
                }));
                if out@.len() > o0.len() {
                    assert(out@.drop_last() =~= o0);
                }
            }
            assert forall|k: int| 0 <= k < out@.len() implies #[trigger] out@[k] < comp_of.len() && comp_of@[out@[k] as int]
                == c && seq_has(list@, out@[k] as int) by {
                if k < o0.len() {
                    assert(out@[k] == o0[k]);
                } else {
                    assert(list@[j as int] == out@[k]);
                }
            }
        }
        j += 1;
    }
    proof {
        assert(list@.take(list.len() as int) =~= list@);
    }
    out
}

/// A walk in the adjacency lists of an edge list is a walk along the list.
pub proof fn lemma_reaches_edges(
    adj: Seq<Seq<usize>>,
    rev: Seq<Seq<usize>>,
    edges: Seq<(usize, usize)>,
    n: int,
    a: int,
    b: int,
)
    requires
        adjacency_of(adj, rev, edges, n),
        adj_well_formed(adj),
        adj.len() == n,
        reaches(adj, a, b),
    ensures
        edges_reach(edges, a, b),
{
    let p = choose|p: Seq<int>| #[trigger] is_walk(adj, p) && p[0] == a && p[p.len() - 1] == b;
    assert forall|i: int| 0 <= i < p.len() - 1 implies #[trigger] edge_step(edges, p, i) by {
        assert(path_step(adj, p, i));
        let row = adj[p[i]];
        let k = choose|k: int| 0 <= k < row.len() && #[trigger] row[k] == p[i + 1];
        assert(p[i + 1] < n);
        lemma_adjacency_edge(adj, rev, edges, n, p[i], p[i + 1]);
    }
    assert(edge_walk(edges, p));
}

/// A walk along the edge list is a walk along the adjacency lists built
/// from it.
pub proof fn lemma_edges_reach(
    adj: Seq<Seq<usize>>,
    rev: Seq<Seq<usize>>,
    edges: Seq<(usize, usize)>,
    n: int,
    a: int,
    b: int,
)
    requires
        adjacency_of(adj, rev, edges, n),
        edges_below(edges, n),
        edges_reach(edges, a, b),
    ensures
        reaches(adj, a, b),
{
    let p = choose|p: Seq<int>| #[trigger] edge_walk(edges, p) && p[0] == a && p[p.len() - 1] == b;
    assert forall|i: int| 0 <= i < p.len() - 1 implies #[trigger] path_step(adj, p, i) by {
        assert(edge_step(edges, p, i));
        let k = choose|k: int| 0 <= k < edges.len() && edges[k].0 == p[i] && edges[k].1 == p[i + 1];
        assert(edges[k].0 < n && edges[k].1 < n);
        lemma_adjacency_edge(adj, rev, edges, n, p[i], p[i + 1]);
    }
    assert(is_walk(adj, p));
}

} // verus!
