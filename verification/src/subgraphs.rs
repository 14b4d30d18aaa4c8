//! Subgraphs: region markers, the nesting of subgraphs by their member
//! sets, and the small choices made per subgraph before it is laid out.
use vstd::prelude::*;

use crate::ir::{DiagramKind, Direction, Graph, Subgraph};
use crate::math_text::{char_is_space, is_space};
use crate::names::{chars_of, find_name};
use crate::ranking::{lookup_order, order_lookup};

verus! {

/// The id prefix of subgraphs that only mark a region.
pub open spec fn region_prefix() -> Seq<char> {
    seq!['_', '_', 'r', 'e', 'g', 'i', 'o', 'n', '_']
}

/// `s` holds nothing but white space.
pub open spec fn blank(s: Seq<char>) -> bool {
    forall|i: int| 0 <= i < s.len() ==> is_space(#[trigger] s[i])
}

/// A subgraph that only marks a region: a blank label and an id that starts
/// with `__region_`.
pub open spec fn spec_is_region(sub: Subgraph) -> bool {
    &&& blank(sub.label@)
    &&& sub.id matches Some(id) && id@.len() >= region_prefix().len() && id@.subrange(
        0,
        region_prefix().len() as int,
    ) == region_prefix()
}

/// Whether `sub` only marks a region.
pub fn is_region_subgraph(sub: &Subgraph) -> (res: bool)
    ensures
        res == spec_is_region(*sub),
{
    let label = chars_of(sub.label.as_str());
    let mut i: usize = 0;
    while i < label.len()
        invariant
            i <= label.len(),
            label@ == sub.label@,
            forall|k: int| 0 <= k < i ==> is_space(#[trigger] label@[k]),
        decreases label.len() - i,
    {
        if !char_is_space(label[i]) {
            return false;
        }
        i += 1;
    }
    match &sub.id {
        None => false,
        Some(id) => {
            let chars = chars_of(id.as_str());
            let prefix: Vec<char> = vec!['_', '_', 'r', 'e', 'g', 'i', 'o', 'n', '_'];
            proof {
                assert(prefix@ == region_prefix());
            }
            if chars.len() < prefix.len() {
                return false;
            }
            let mut k: usize = 0;
            while k < prefix.len()
                invariant
                    k <= prefix.len(),
                    prefix@ == region_prefix(),
                    chars@ == id@,
                    sub.id == Some(*id),
                    chars.len() >= prefix.len(),
                    forall|q: int| 0 <= q < k ==> chars@[q] == prefix@[q],
                decreases prefix.len() - k,
            {
                if chars[k] != prefix[k] {
                    proof {
                        assert(chars@.subrange(0, prefix.len() as int)[k as int] == chars@[k as int]);
                        assert(id@.subrange(0, region_prefix().len() as int) != region_prefix());
                    }
                    return false;
                }
                k += 1;
            }
            proof {
                assert(chars@.subrange(0, prefix.len() as int) =~= prefix@);
            }
            true
        },
    }
}

/// Some entry of `names` is spelled `x`.
pub open spec fn has_name(names: Seq<String>, x: Seq<char>) -> bool {
    exists|k: int| 0 <= k < names.len() && (#[trigger] names[k])@ == x
}

/// Every name in `a` is in `b`.
pub open spec fn names_within(a: Seq<String>, b: Seq<String>) -> bool {
    forall|i: int| 0 <= i < a.len() ==> has_name(b, (#[trigger] a[i])@)
}

/// Number of distinct spellings among the first `upto` entries of `names`.
pub open spec fn distinct_upto(names: Seq<String>, upto: int) -> nat
    decreases upto,
{
    if upto <= 0 {
        0
    } else {
        distinct_upto(names, upto - 1) + (if has_name(names.take(upto - 1), names[upto - 1]@) {
            0nat
        } else {
            1nat
        })
    }
}

/// Number of distinct members of a subgraph.
pub open spec fn member_count(sub: Subgraph) -> nat {
    distinct_upto(sub.nodes@, sub.nodes@.len() as int)
}

/// Subgraph `j` strictly contains subgraph `i`: it has more distinct members
/// and every member of `i`.
pub open spec fn encloses(subs: Seq<Subgraph>, j: int, i: int) -> bool {
    member_count(subs[j]) > member_count(subs[i]) && names_within(subs[i].nodes@, subs[j].nodes@)
}

/// `j` is the parent of `i`: among the subgraphs that strictly contain `i`,
/// the one with the fewest members, the first of those.
pub open spec fn is_parent(subs: Seq<Subgraph>, i: int, j: int) -> bool {
    &&& 0 <= j < subs.len()
    &&& encloses(subs, j, i)
    &&& forall|k: int|
        0 <= k < subs.len() && #[trigger] encloses(subs, k, i) ==> member_count(subs[j])
            < member_count(subs[k]) || (member_count(subs[j]) == member_count(subs[k]) && j <= k)
}

/// No subgraph strictly contains `i`.
pub open spec fn is_top(subs: Seq<Subgraph>, i: int) -> bool {
    forall|k: int| 0 <= k < subs.len() ==> !#[trigger] encloses(subs, k, i)
}

/// `x` comes before `y` in the order of the tree's walk: fewer members,
/// or as many and a lower index.
pub open spec fn walk_before(subs: Seq<Subgraph>, x: int, y: int) -> bool {
    member_count(subs[x]) < member_count(subs[y]) || (member_count(subs[x]) == member_count(subs[y])
        && x < y)
}

/// The nesting of a diagram's subgraphs.
pub struct SubgraphTree {
    /// The parent of each subgraph, if any.
    pub parent: Vec<Option<usize>>,
    /// The children of each subgraph, fewest members first.
    pub children: Vec<Vec<usize>>,
    /// The subgraphs without a parent, in index order.
    pub top_level: Vec<usize>,
    /// The number of distinct members of each subgraph.
    pub size: Ghost<Seq<nat>>,
}

impl SubgraphTree {
    /// Parents have more members than their children, so following parents
    /// ends.
    pub open spec fn wf(&self) -> bool {
        &&& self.size@.len() == self.parent@.len()
        &&& forall|i: int| 0 <= i < self.size@.len() ==> #[trigger] self.size@[i] <= usize::MAX
        &&& forall|i: int|
            0 <= i < self.parent@.len() ==> match #[trigger] self.parent@[i] {
                Some(j) => j < self.parent@.len() && self.size@[j as int] > self.size@[i],
                None => true,
            }
    }

    /// The tree is the nesting of `subs`.
    pub open spec fn of(&self, subs: Seq<Subgraph>) -> bool {
        &&& self.wf()
        &&& self.parent@.len() == subs.len()
        &&& self.children@.len() == subs.len()
        &&& forall|i: int| 0 <= i < subs.len() ==> #[trigger] self.size@[i] == member_count(subs[i])
        &&& forall|i: int|
            0 <= i < subs.len() ==> match #[trigger] self.parent@[i] {
                Some(j) => is_parent(subs, i, j as int),
                None => is_top(subs, i),
            }
        &&& forall|j: int, c: int|
            0 <= j < subs.len() && 0 <= c < subs.len() ==> (#[trigger] self.children@[j]@.contains(
                c as usize,
            ) <==> #[trigger] self.parent@[c] == Some(j as usize))
        &&& forall|j: int, a: int, b: int|
            0 <= j < subs.len() && 0 <= a < b < self.children@[j]@.len() ==> walk_before(
                subs,
                #[trigger] self.children@[j]@[a] as int,
                #[trigger] self.children@[j]@[b] as int,
            )
        &&& forall|a: int| 0 <= a < self.top_level@.len() ==> #[trigger] self.top_level@[a] < subs.len()
        &&& forall|a: int, b: int|
            0 <= a < b < self.top_level@.len() ==> #[trigger] self.top_level@[a] < #[trigger] self.top_level@[b]
        &&& forall|i: int|
            0 <= i < subs.len() ==> (self.top_level@.contains(i as usize) <==> #[trigger] self.parent@[i]
                is None)
    }

    /// The `k`-th ancestor of `d`, following parents.
    pub open spec fn up(&self, d: int, k: nat) -> Option<int>
        decreases k,
    {
        if k == 0 {
            Some(d)
        } else {
            match self.up(d, (k - 1) as nat) {
                Some(c) => if 0 <= c < self.parent@.len() {
                    match self.parent@[c] {
                        Some(p) => Some(p as int),
                        None => None,
                    }
                } else {
                    None
                },
                None => None,
            }
        }
    }

    /// `a` is reached from `d` by following parents one or more times.
    pub open spec fn ancestor(&self, a: int, d: int) -> bool {
        exists|k: nat| k >= 1 && #[trigger] self.up(d, k) == Some(a)
    }

    /// Neither of two distinct subgraphs lies inside the other.
    pub open spec fn siblings(&self, a: int, b: int) -> bool {
        a != b && !self.ancestor(a, b) && !self.ancestor(b, a)
    }
}

/// Number of distinct spellings in `names`.
pub(crate) fn distinct_count(names: &Vec<String>) -> (n: usize)
    ensures
        n == distinct_upto(names@, names@.len() as int),
{
    let mut n: usize = 0;
    let mut i: usize = 0;
    while i < names.len()
        invariant
            i <= names.len(),
            n == distinct_upto(names@, i as int),
            n <= i,
        decreases names.len() - i,
    {
        let mut k: usize = 0;
        let mut seen = false;
        while k < i && !seen
            invariant
                k <= i < names.len(),
                seen ==> has_name(names@.take(i as int), names@[i as int]@),
                !seen ==> forall|q: int| 0 <= q < k ==> (#[trigger] names@[q])@ != names@[i as int]@,
            decreases i - k + (if seen {
                0int
            } else {
                1int
            }),
        {
            if names[k] == names[i] {
                seen = true;
                proof {
                    assert(names@.take(i as int)[k as int] == names@[k as int]);
                }
            } else {
                k += 1;
            }
        }
        proof {
            if !seen {
                assert forall|q: int| 0 <= q < i implies (#[trigger] names@.take(i as int)[q])@
                    != names@[i as int]@ by {
                    assert(names@.take(i as int)[q] == names@[q]);
                }
            }
        }
        if !seen {
            n += 1;
        }
        i += 1;
    }
    n
}

/// Whether every name of `a` is in `b`.
fn all_names_within(a: &Vec<String>, b: &Vec<String>) -> (res: bool)
    ensures
        res == names_within(a@, b@),
{
    let mut i: usize = 0;
    while i < a.len()
        invariant
            i <= a.len(),
            forall|q: int| 0 <= q < i ==> has_name(b@, (#[trigger] a@[q])@),
        decreases a.len() - i,
    {
        match find_name(b, &a[i]) {
            Some(t) => {
                proof {
                    assert(has_name(b@, a@[i as int]@)) by {
                        assert(b@[t as int]@ == a@[i as int]@);
                    }
                }
            },
            None => {
                return false;
            },
        }
        i += 1;
    }
    true
}

/// The parent of subgraph `i`: the enclosing subgraph with the fewest
/// members, the first of those.
fn find_parent(subs: &Vec<Subgraph>, sizes: &Vec<usize>, i: usize) -> (res: Option<usize>)
    requires
        i < subs.len(),
        sizes.len() == subs.len(),
        forall|k: int| 0 <= k < subs.len() ==> #[trigger] sizes@[k] == member_count(subs@[k]),
    ensures
        match res {
            Some(j) => is_parent(subs@, i as int, j as int),
            None => is_top(subs@, i as int),
        },
{
    let mut best: Option<usize> = None;
    let mut j: usize = 0;
    while j < subs.len()
        invariant
            j <= subs.len(),
            i < subs.len(),
            sizes.len() == subs.len(),
            forall|k: int| 0 <= k < subs.len() ==> #[trigger] sizes@[k] == member_count(subs@[k]),
            match best {
                Some(b) => b < j && encloses(subs@, b as int, i as int) && forall|k: int|
                    0 <= k < j && #[trigger] encloses(subs@, k, i as int) ==> member_count(subs@[b as int])
                        < member_count(subs@[k]) || (member_count(subs@[b as int]) == member_count(
                        subs@[k],
                    ) && b <= k),
                None => forall|k: int| 0 <= k < j ==> !#[trigger] encloses(subs@, k, i as int),
            },
        decreases subs.len() - j,
    {
        if sizes[j] > sizes[i] && all_names_within(&subs[i].nodes, &subs[j].nodes) {
            let better = match best {
                None => true,
                Some(b) => sizes[j] < sizes[b],
            };
            if better {
                best = Some(j);
            }
        }
        j += 1;
    }
    best
}

/// The tree's walk order: all subgraphs, fewest members first, equal counts
/// in index order.
fn walk_order(subs: &Vec<Subgraph>, sizes: &Vec<usize>) -> (order: Vec<usize>)
    requires
        sizes.len() == subs.len(),
        forall|k: int| 0 <= k < subs.len() ==> #[trigger] sizes@[k] == member_count(subs@[k]),
    ensures
        order.len() == subs.len(),
        forall|a: int| 0 <= a < order.len() ==> #[trigger] order@[a] < subs.len(),
        forall|c: usize| c < subs.len() ==> #[trigger] order@.contains(c),
        forall|a: int, b: int|
            0 <= a < b < order.len() ==> walk_before(subs@, #[trigger] order@[a] as int, #[trigger] order@[b] as int),
{
    let mut order: Vec<usize> = Vec::new();
    let mut c: usize = 0;
    while c < subs.len()
        invariant
            c <= subs.len(),
            sizes.len() == subs.len(),
            forall|k: int| 0 <= k < subs.len() ==> #[trigger] sizes@[k] == member_count(subs@[k]),
            order.len() == c,
            forall|a: int| 0 <= a < order.len() ==> #[trigger] order@[a] < c,
            forall|q: usize| q < c ==> #[trigger] order@.contains(q),
            forall|a: int, b: int|
                0 <= a < b < order.len() ==> walk_before(subs@, #[trigger] order@[a] as int, #[trigger] order@[b] as int),
        decreases subs.len() - c,
    {
        // insert `c` after every entry that comes before it
        let mut p: usize = order.len();
        while p > 0 && sizes[order[p - 1]] > sizes[c]
            invariant
                p <= order.len(),
                order.len() == c,
                c < subs.len(),
                sizes.len() == subs.len(),
                forall|a: int| 0 <= a < order.len() ==> #[trigger] order@[a] < c,
                forall|a: int| p <= a < order.len() ==> #[trigger] sizes@[order@[a] as int] > sizes@[c as int],
                forall|q: usize| q < c ==> #[trigger] order@.contains(q),
                forall|a: int, b: int|
                    0 <= a < b < order.len() ==> walk_before(subs@, #[trigger] order@[a] as int, #[trigger] order@[b] as int),
                forall|k: int| 0 <= k < subs.len() ==> #[trigger] sizes@[k] == member_count(subs@[k]),
            decreases p,
        {
            p -= 1;
        }
        let ghost o0 = order@;
        proof {
            assert forall|a: int| 0 <= a < p implies #[trigger] sizes@[o0[a] as int] <= sizes@[c as int] by {
                if p > 0 {
                    assert(sizes@[o0[p - 1] as int] <= sizes@[c as int]);
                    if a < p - 1 {
                        assert(walk_before(subs@, o0[a] as int, o0[p - 1] as int));
                    }
                }
            }
        }
        order.insert(p, c);
        proof {
            o0.insert_ensures(p as int, c);
            assert forall|q: usize| q < c + 1 implies #[trigger] order@.contains(q) by {
                if q == c {
                    assert(order@[p as int] == c);
                } else {
                    assert(o0.contains(q));
                    let w = choose|w: int| 0 <= w < o0.len() && o0[w] == q;
                    assert(0 <= w < o0.len());
                    o0.insert_ensures(p as int, c);
                    if w < p {
                        assert(o0.insert(p as int, c)[w] == o0[w]);
                        assert(order@[w] == o0[w]);
                    } else {
                        assert(o0.insert(p as int, c)[w + 1] == o0[w]);
                        assert(order@[w + 1] == o0[w]);
                    }
                }
            }
            assert forall|a: int, b: int| 0 <= a < b < order.len() implies walk_before(
                subs@,
                #[trigger] order@[a] as int,
                #[trigger] order@[b] as int,
            ) by {
                if b < p {
                    assert(walk_before(subs@, o0[a] as int, o0[b] as int));
                } else if b == p {
                    assert(sizes@[o0[a] as int] <= sizes@[c as int]);
                    assert(o0[a] < c);
                } else if a < p {
                    assert(walk_before(subs@, o0[a] as int, o0[b - 1] as int));
                } else if a == p {
                    assert(sizes@[o0[b - 1] as int] > sizes@[c as int]);
                } else {
                    assert(walk_before(subs@, o0[a - 1] as int, o0[b - 1] as int));
                }
            }
        }
        c += 1;
    }
    order
}

impl SubgraphTree {
    /// The nesting of `graph`'s subgraphs: each subgraph's parent is the
    /// subgraph with the fewest members among those that have more members
    /// and all of its members.
    pub fn build(graph: &Graph) -> (tree: SubgraphTree)
        ensures
            tree.of(graph.subgraphs@),
    {
        let subs = &graph.subgraphs;
        let n = subs.len();
        let mut sizes: Vec<usize> = Vec::new();
        let mut i: usize = 0;
        while i < n
            invariant
                i <= n,
                n == subs.len(),
                sizes.len() == i,
                forall|k: int| 0 <= k < i ==> #[trigger] sizes@[k] == member_count(subs@[k]),
            decreases n - i,
        {
            sizes.push(distinct_count(&subs[i].nodes));
            i += 1;
        }
        let ghost size_view = sizes@.map_values(|x: usize| x as nat);
        let mut parent: Vec<Option<usize>> = Vec::new();
        let mut i: usize = 0;
        while i < n
            invariant
                i <= n,
                n == subs.len(),
                sizes.len() == n,
                forall|k: int| 0 <= k < n ==> #[trigger] sizes@[k] == member_count(subs@[k]),
                parent.len() == i,
                forall|k: int|
                    0 <= k < i ==> match #[trigger] parent@[k] {
                        Some(j) => is_parent(subs@, k, j as int),
                        None => is_top(subs@, k),
                    },
            decreases n - i,
        {
            parent.push(find_parent(subs, &sizes, i));
            i += 1;
        }
        let order = walk_order(subs, &sizes);
        let mut children: Vec<Vec<usize>> = Vec::new();
        let mut p: usize = 0;
        while p < n
            invariant
                p <= n,
                n == subs.len(),
                order.len() == n,
                parent.len() == n,
                children.len() == p,
                forall|a: int| 0 <= a < n ==> #[trigger] order@[a] < n,
                forall|c: usize| c < n ==> #[trigger] order@.contains(c),
                forall|a: int, b: int|
                    0 <= a < b < n ==> walk_before(subs@, #[trigger] order@[a] as int, #[trigger] order@[b] as int),
                forall|q: int, c: int|
                    0 <= q < p && 0 <= c < n ==> (#[trigger] children@[q]@.contains(c as usize) <==> #[trigger] parent@[c]
                        == Some(q as usize)),
                forall|q: int, a: int, b: int|
                    0 <= q < p && 0 <= a < b < children@[q]@.len() ==> walk_before(
                        subs@,
                        #[trigger] children@[q]@[a] as int,
                        #[trigger] children@[q]@[b] as int,
                    ),
            decreases n - p,
        {
            let mut list: Vec<usize> = Vec::new();
            let mut t: usize = 0;
            while t < n
                invariant
                    t <= n,
                    p < n,
                    order.len() == n,
                    parent.len() == n,
                    forall|a: int| 0 <= a < n ==> #[trigger] order@[a] < n,
                    forall|a: int, b: int|
                        0 <= a < b < n ==> walk_before(subs@, #[trigger] order@[a] as int, #[trigger] order@[b] as int),
                    forall|c: int|
                        0 <= c < n ==> (list@.contains(c as usize) <==> (#[trigger] parent@[c] == Some(
                            p as usize,
                        ) && order@.take(t as int).contains(c as usize))),
                    forall|a: int, b: int|
                        0 <= a < b < list.len() ==> walk_before(
                            subs@,
                            #[trigger] list@[a] as int,
                            #[trigger] list@[b] as int,
                        ),
                    forall|a: int|
                        0 <= a < list.len() ==> exists|w: int| 0 <= w < t && order@[w] == #[trigger] list@[a],
                decreases n - t,
            {
                let c = order[t];
                let ghost l0 = list@;
                let hit = match parent[c] {
                    Some(q) => q == p,
                    None => false,
                };
                if hit {
                    list.push(c);
                }
                proof {
                    assert(order@.take(t + 1) =~= order@.take(t as int).push(c));
                    assert forall|a: int| 0 <= a < list.len() implies exists|w: int|
                        0 <= w < t + 1 && order@[w] == #[trigger] list@[a] by {
                        if a < l0.len() {
                            assert(list@[a] == l0[a]);
                            let w = choose|w: int| 0 <= w < t && order@[w] == l0[a];
                        } else {
                            assert(order@[t as int] == list@[a]);
                        }
                    }
                    if hit {
                        assert forall|a: int, b: int| 0 <= a < b < list.len() implies walk_before(
                            subs@,
                            #[trigger] list@[a] as int,
                            #[trigger] list@[b] as int,
                        ) by {
                            if b == l0.len() {
                                let w = choose|w: int| 0 <= w < t && order@[w] == l0[a];
                                assert(list@[a] == l0[a]);
                                assert(walk_before(subs@, order@[w] as int, order@[t as int] as int));
                            } else {
                                assert(list@[a] == l0[a] && list@[b] == l0[b]);
                            }
                        }
                    }
                    let pre = order@.take(t + 1);
                    assert forall|x: int| 0 <= x < n implies (list@.contains(x as usize) <==> (#[trigger] parent@[x]
                        == Some(p as usize) && pre.contains(x as usize))) by {
                        if list@.contains(x as usize) {
                            let a = choose|a: int| 0 <= a < list.len() && list@[a] == x as usize;
                            if a < l0.len() {
                                assert(l0[a] == x);
                                assert(l0.contains(x as usize));
                                assert(order@.take(t as int).contains(x as usize));
                                let w = choose|w: int| 0 <= w < t && #[trigger] order@.take(t as int)[w] == x as usize;
                                assert(pre[w] == x);
                            } else {
                                assert(list@[a] == c);
                                assert(pre[t as int] == c);
                            }
                        }
                        if parent@[x] == Some(p as usize) && pre.contains(x as usize) {
                            let w = choose|w: int| 0 <= w < pre.len() && #[trigger] pre[w] == x as usize;
                            if w < t {
                                assert(order@.take(t as int)[w] == x);
                                assert(order@.take(t as int).contains(x as usize));
                                let a = choose|a: int| 0 <= a < l0.len() && l0[a] == x as usize;
                                assert(list@[a] == x);
                            } else {
                                assert(list@[l0.len() as int] == x);
                            }
                        }
                    }
                }
                t += 1;
            }
            proof {
                assert(order@.take(n as int) =~= order@);
            }
            children.push(list);
            p += 1;
        }
        let mut top_level: Vec<usize> = Vec::new();
        let mut k: usize = 0;
        while k < n
            invariant
                k <= n,
                parent.len() == n,
                forall|a: int| 0 <= a < top_level.len() ==> #[trigger] top_level@[a] < k,
                forall|a: int, b: int|
                    0 <= a < b < top_level.len() ==> #[trigger] top_level@[a] < #[trigger] top_level@[b],
                forall|q: int| 0 <= q < k ==> (top_level@.contains(q as usize) <==> #[trigger] parent@[q] is None),
            decreases n - k,
        {
            let ghost t0 = top_level@;
            if parent[k].is_none() {
                top_level.push(k);
            }
            proof {
                assert forall|q: int| 0 <= q < k + 1 implies (top_level@.contains(q as usize) <==> #[trigger] parent@[q]
                    is None) by {
                    if top_level@.contains(q as usize) {
                        let a = choose|a: int| 0 <= a < top_level.len() && top_level@[a] == q as usize;
                        if a < t0.len() {
                            assert(t0.contains(q as usize));
                        }
                    }
                    if parent@[q] is None {
                        if q < k {
                            let a = choose|a: int| 0 <= a < t0.len() && t0[a] == q as usize;
                            assert(top_level@[a] == q);
                        } else {
                            assert(top_level@[t0.len() as int] == q);
                        }
                    }
                }
            }
            k += 1;
        }
        let tree = SubgraphTree { parent, children, top_level, size: Ghost(size_view) };
        tree
    }
}

/// Past the end of a parent chain there is nothing.
pub proof fn lemma_up_ends(tree: &SubgraphTree, d: int, k: nat, c: int, m: nat)
    requires
        tree.up(d, k) == Some(c),
        0 <= c < tree.parent@.len(),
        tree.parent@[c] is None,
        m > k,
    ensures
        tree.up(d, m) is None,
    decreases m,
{
    if m > k + 1 {
        lemma_up_ends(tree, d, k, c, (m - 1) as nat);
    }
}

impl SubgraphTree {
    /// Whether `ancestor` is reached from `descendant` by following parents.
    pub fn is_ancestor(&self, ancestor: usize, descendant: usize) -> (res: bool)
        requires
            self.wf(),
            descendant < self.parent.len(),
        ensures
            res == self.ancestor(ancestor as int, descendant as int),
    {
        let mut cur = descendant;
        let ghost mut k: nat = 0;
        loop
            invariant
                self.wf(),
                cur < self.parent.len(),
                self.up(descendant as int, k) == Some(cur as int),
                forall|m: nat| 1 <= m <= k ==> #[trigger] self.up(descendant as int, m) != Some(
                    ancestor as int,
                ),
            decreases usize::MAX - self.size@[cur as int],
        {
            match self.parent[cur] {
                Some(p) => {
                    proof {
                        assert(self.up(descendant as int, k + 1) == Some(p as int));
                    }
                    if p == ancestor {
                        return true;
                    }
                    cur = p;
                    proof {
                        k = k + 1;
                    }
                },
                None => {
                    proof {
                        assert forall|m: nat| m >= 1 implies #[trigger] self.up(descendant as int, m) != Some(
                            ancestor as int,
                        ) by {
                            if m > k {
                                lemma_up_ends(self, descendant as int, k, cur as int, m);
                            }
                        }
                    }
                    return false;
                },
            }
        }
    }

    /// Whether two distinct subgraphs lie neither inside the other.
    pub fn are_siblings(&self, a: usize, b: usize) -> (res: bool)
        requires
            self.wf(),
            a < self.parent.len(),
            b < self.parent.len(),
        ensures
            res == self.siblings(a as int, b as int),
    {
        a != b && !self.is_ancestor(a, b) && !self.is_ancestor(b, a)
    }
}

/// Being siblings does not depend on the order of the two.
pub proof fn lemma_siblings_symmetric(tree: &SubgraphTree, a: int, b: int)
    ensures
        tree.siblings(a, b) == tree.siblings(b, a),
        !tree.siblings(a, a),
{
}

/// Every name of `a` in `b`, and every name of `b` in `c`: every name of
/// `a` in `c`.
pub proof fn lemma_names_within_trans(a: Seq<String>, b: Seq<String>, c: Seq<String>)
    requires
        names_within(a, b),
        names_within(b, c),
    ensures
        names_within(a, c),
{
    assert forall|i: int| 0 <= i < a.len() implies has_name(c, (#[trigger] a[i])@) by {
        assert(has_name(b, a[i]@));
        let k = choose|k: int| 0 <= k < b.len() && (#[trigger] b[k])@ == a[i]@;
        assert(has_name(c, b[k]@));
    }
}

/// Every ancestor of a subgraph strictly contains it: it has more distinct
/// members and all of the subgraph's members.  In particular no subgraph is
/// its own ancestor.
pub proof fn lemma_ancestor_encloses(tree: &SubgraphTree, subs: Seq<Subgraph>, a: int, d: int)
    requires
        tree.of(subs),
        0 <= d < subs.len(),
        tree.ancestor(a, d),
    ensures
        0 <= a < subs.len(),
        member_count(subs[a]) > member_count(subs[d]),
        names_within(subs[d].nodes@, subs[a].nodes@),
        a != d,
{
    let k = choose|k: nat| k >= 1 && #[trigger] tree.up(d, k) == Some(a);
    lemma_up_encloses(tree, subs, d, k);
}

proof fn lemma_up_encloses(tree: &SubgraphTree, subs: Seq<Subgraph>, d: int, k: nat)
    requires
        tree.of(subs),
        0 <= d < subs.len(),
        k >= 1,
        tree.up(d, k) is Some,
    ensures
        ({
            let a = tree.up(d, k)->0;
            &&& 0 <= a < subs.len()
            &&& member_count(subs[a]) > member_count(subs[d])
            &&& names_within(subs[d].nodes@, subs[a].nodes@)
        }),
    decreases k,
{
    if k == 1 {
        assert(tree.up(d, 0) == Some(d));
        assert(tree.parent@[d] is Some);
        let p = tree.parent@[d]->0;
        assert(is_parent(subs, d, p as int));
    } else {
        let prev = tree.up(d, (k - 1) as nat);
        assert(prev is Some);
        lemma_up_encloses(tree, subs, d, (k - 1) as nat);
        let c = prev->0;
        assert(tree.parent@[c] is Some);
        let p = tree.parent@[c]->0;
        assert(is_parent(subs, c, p as int));
        lemma_names_within_trans(subs[d].nodes@, subs[c].nodes@, subs[p as int].nodes@);
    }
}

/// The subgraphs that no other subgraph strictly contains, in index order.
pub fn top_level_subgraph_indices(graph: &Graph) -> (top: Vec<usize>)
    ensures
        forall|a: int| 0 <= a < top.len() ==> #[trigger] top@[a] < graph.subgraphs.len(),
        forall|a: int, b: int| 0 <= a < b < top.len() ==> #[trigger] top@[a] < #[trigger] top@[b],
        forall|i: int|
            0 <= i < graph.subgraphs.len() ==> (top@.contains(i as usize) <==> #[trigger] is_top(
                graph.subgraphs@,
                i,
            )),
{
    let tree = SubgraphTree::build(graph);
    let top = tree.top_level;
    proof {
        let subs = graph.subgraphs@;
        assert forall|i: int| 0 <= i < subs.len() implies (top@.contains(i as usize) <==> #[trigger] is_top(
            subs,
            i,
        )) by {
            match tree.parent@[i] {
                Some(j) => {
                    assert(is_parent(subs, i, j as int));
                    assert(encloses(subs, j as int, i));
                },
                None => {},
            }
        }
    }
    top
}

/// The way a subgraph's own nodes are laid out: state diagrams follow the
/// diagram; elsewhere a subgraph's own direction wins.
pub fn subgraph_layout_direction(graph: &Graph, sub: &Subgraph) -> (d: Direction)
    ensures
        d == (if graph.kind == DiagramKind::State {
            graph.direction
        } else {
            match sub.direction {
                Some(own) => own,
                None => graph.direction,
            }
        }),
{
    if graph.kind == DiagramKind::State {
        return graph.direction;
    }
    match sub.direction {
        Some(own) => own,
        None => graph.direction,
    }
}

/// Number of edges among the first `upto` whose two ends are both members
/// of `sub`.
pub open spec fn internal_upto(edges: Seq<crate::ir::Edge>, sub: Subgraph, upto: int) -> nat
    decreases upto,
{
    if upto <= 0 {
        0
    } else {
        internal_upto(edges, sub, upto - 1) + (if has_name(sub.nodes@, edges[upto - 1].from@)
            && has_name(sub.nodes@, edges[upto - 1].to@) {
            1nat
        } else {
            0nat
        })
    }
}

/// Whether `x` is a member of `names`.
fn member(names: &Vec<String>, x: &String) -> (res: bool)
    ensures
        res == has_name(names@, x@),
{
    match find_name(names, x) {
        Some(t) => {
            proof {
                assert(names@[t as int]@ == x@);
            }
            true
        },
        None => false,
    }
}

/// Number of the diagram's edges that run between two members of `sub`.
pub fn flowchart_subgraph_internal_edge_count(graph: &Graph, sub: &Subgraph) -> (n: usize)
    ensures
        n == internal_upto(graph.edges@, *sub, graph.edges.len() as int),
{
    let mut n: usize = 0;
    let mut k: usize = 0;
    while k < graph.edges.len()
        invariant
            k <= graph.edges.len(),
            n == internal_upto(graph.edges@, *sub, k as int),
            n <= k,
        decreases graph.edges.len() - k,
    {
        let edge = &graph.edges[k];
        if member(&sub.nodes, &edge.from) && member(&sub.nodes, &edge.to) {
            n += 1;
        }
        k += 1;
    }
    n
}

/// The order key of a node: its place in the diagram's node order, or last
/// where it has none.
pub open spec fn order_key(graph: Graph, x: Seq<char>) -> usize {
    match order_lookup(graph.node_order@, x) {
        Some(v) => v,
        None => usize::MAX,
    }
}

/// Member `i` of `sub` may anchor it: it is not an anchor already, unless
/// every member is.
pub open spec fn eligible(sub: Subgraph, anchors: Seq<String>, i: int) -> bool {
    &&& 0 <= i < sub.nodes@.len()
    &&& (!has_name(anchors, sub.nodes@[i]@) || forall|j: int|
        0 <= j < sub.nodes@.len() ==> has_name(anchors, (#[trigger] sub.nodes@[j])@))
}

/// Member `i` is the one chosen to anchor `sub`: the eligible member first
/// in the node order, the earliest of equals.
pub open spec fn anchor_choice(graph: Graph, sub: Subgraph, anchors: Seq<String>, i: int) -> bool {
    &&& eligible(sub, anchors, i)
    &&& forall|j: int|
        #![trigger eligible(sub, anchors, j)]
        eligible(sub, anchors, j) ==> order_key(graph, sub.nodes@[i]@) <= order_key(
            graph,
            sub.nodes@[j]@,
        ) && (j < i ==> order_key(graph, sub.nodes@[j]@) > order_key(graph, sub.nodes@[i]@))
}

/// The member of `sub` that anchors it: the one first in the node order
/// among those that are not anchors already (among all members where every
/// one is), the earliest of equals; none for an empty subgraph.
pub fn pick_subgraph_anchor_child(sub: &Subgraph, graph: &Graph, anchor_ids: &Vec<String>) -> (res: Option<String>)
    ensures
        res is None <==> sub.nodes.len() == 0,
        res matches Some(s) ==> exists|i: int|
            #![trigger anchor_choice(*graph, *sub, anchor_ids@, i)]
            anchor_choice(*graph, *sub, anchor_ids@, i) && s == sub.nodes@[i],
{
    let nodes = &sub.nodes;
    let mut all_anchored = true;
    let mut i: usize = 0;
    while i < nodes.len()
        invariant
            i <= nodes.len(),
            all_anchored == forall|j: int| 0 <= j < i ==> has_name(anchor_ids@, (#[trigger] nodes@[j])@),
        decreases nodes.len() - i,
    {
        if !member(anchor_ids, &nodes[i]) {
            all_anchored = false;
        }
        i += 1;
    }
    let mut best: Option<usize> = None;
    let mut best_key: usize = 0;
    let mut i: usize = 0;
    while i < nodes.len()
        invariant
            i <= nodes.len(),
            nodes == sub.nodes,
            all_anchored == forall|j: int| 0 <= j < nodes.len() ==> has_name(anchor_ids@, (#[trigger] nodes@[j])@),
            match best {
                Some(b) => b < i && eligible(*sub, anchor_ids@, b as int) && best_key == order_key(
                    *graph,
                    nodes@[b as int]@,
                ) && forall|j: int|
                    #![trigger eligible(*sub, anchor_ids@, j)]
                    0 <= j < i && eligible(*sub, anchor_ids@, j) ==> best_key <= order_key(
                        *graph,
                        nodes@[j]@,
                    ) && (j < b ==> order_key(*graph, nodes@[j]@) > best_key),
                None => forall|j: int| 0 <= j < i ==> !#[trigger] eligible(*sub, anchor_ids@, j),
            },
        decreases nodes.len() - i,
    {
        let ok = all_anchored || !member(anchor_ids, &nodes[i]);
        if ok {
            let key = match lookup_order(&graph.node_order, &nodes[i]) {
                Some(v) => v,
                None => usize::MAX,
            };
            let better = match best {
                None => true,
                Some(_) => key < best_key,
            };
            if better {
                best = Some(i);
                best_key = key;
            }
        }
        proof {
            assert(ok == eligible(*sub, anchor_ids@, i as int));
        }
        i += 1;
    }
    match best {
        Some(b) => {
            proof {
                assert(anchor_choice(*graph, *sub, anchor_ids@, b as int));
            }
            Some(nodes[b].clone())
        },
        None => {
            proof {
                if nodes.len() > 0 {
                    if all_anchored {
                        assert(eligible(*sub, anchor_ids@, 0));
                    } else {
                        let j = choose|j: int| 0 <= j < nodes.len() && !has_name(anchor_ids@, nodes@[j]@);
                        assert(eligible(*sub, anchor_ids@, j));
                    }
                }
            }
            None
        },
    }
}

/// The name of the laid-out node that stands for `sub` outside it: its id,
/// else its label, provided a node of `layout_ids` bears that name and no
/// member of `sub` does.
pub open spec fn anchor_name(sub: Subgraph, layout_ids: Seq<String>) -> Option<Seq<char>> {
    if sub.id matches Some(id) && has_name(layout_ids, id@) && !has_name(sub.nodes@, id@) {
        Some(sub.id->0@)
    } else if has_name(layout_ids, sub.label@) && !has_name(sub.nodes@, sub.label@) {
        Some(sub.label@)
    } else {
        None
    }
}

/// The node, among those named in `layout_ids`, that stands for `sub`
/// outside it: the one named by the subgraph's id, else by its label, if
/// that node is not a member of the subgraph.
pub fn subgraph_anchor_id(sub: &Subgraph, layout_ids: &Vec<String>) -> (res: Option<String>)
    ensures
        match res {
            Some(a) => anchor_name(*sub, layout_ids@) == Some(a@),
            None => anchor_name(*sub, layout_ids@) is None,
        },
{
    match &sub.id {
        Some(id) => {
            if member(layout_ids, id) && !member(&sub.nodes, id) {
                return Some(id.clone());
            }
        },
        None => {},
    }
    if member(layout_ids, &sub.label) && !member(&sub.nodes, &sub.label) {
        return Some(sub.label.clone());
    }
    None
}

/// A subgraph can be anchored: it has members, no edge touches its anchor
/// node, and no edge runs between a member and a non-member.
pub open spec fn anchorable(sub: Subgraph, edges: Seq<crate::ir::Edge>, layout_ids: Seq<String>) -> bool {
    &&& sub.nodes@.len() > 0
    &&& forall|k: int|
        0 <= k < edges.len() ==> {
            &&& (anchor_name(sub, layout_ids) matches Some(a) ==> (#[trigger] edges[k]).from@ != a
                && edges[k].to@ != a)
            &&& has_name(sub.nodes@, edges[k].from@) == has_name(sub.nodes@, edges[k].to@)
        }
}

/// An edge with exactly one end among a subgraph's members keeps the
/// subgraph from being anchored, whichever way the edge runs: into the
/// subgraph or out of it.
pub proof fn lemma_border_edge_blocks_anchor(
    sub: Subgraph,
    edges: Seq<crate::ir::Edge>,
    layout_ids: Seq<String>,
    k: int,
)
    requires
        0 <= k < edges.len(),
        (exists|j: int| 0 <= j < sub.nodes@.len() && (#[trigger] sub.nodes@[j])@ == edges[k].from@) != (exists|j: int|
            0 <= j < sub.nodes@.len() && (#[trigger] sub.nodes@[j])@ == edges[k].to@),
    ensures
        !anchorable(sub, edges, layout_ids),
{
    if anchorable(sub, edges, layout_ids) {
        assert(has_name(sub.nodes@, edges[k].from@) == has_name(sub.nodes@, edges[k].to@));
    }
}

/// A subgraph without members is never anchored, and neither is one whose
/// anchor node is an end of some edge.
pub proof fn lemma_anchor_needs_members_and_free_anchor(
    sub: Subgraph,
    edges: Seq<crate::ir::Edge>,
    layout_ids: Seq<String>,
    k: int,
)
    ensures
        sub.nodes@.len() == 0 ==> !anchorable(sub, edges, layout_ids),
        0 <= k < edges.len() && (anchor_name(sub, layout_ids) == Some(edges[k].from@) || anchor_name(sub, layout_ids)
            == Some(edges[k].to@)) ==> !anchorable(sub, edges, layout_ids),
{
    if 0 <= k < edges.len() && anchorable(sub, edges, layout_ids) {
        assert(anchor_name(sub, layout_ids) matches Some(a) ==> edges[k].from@ != a && edges[k].to@ != a);
    }
}

/// A subgraph with members, whose anchor node is no end of an edge, and
/// whose every edge has both ends or neither among its members, is
/// anchored.
pub proof fn lemma_anchorable_when_clear(sub: Subgraph, edges: Seq<crate::ir::Edge>, layout_ids: Seq<String>)
    requires
        sub.nodes@.len() > 0,
        forall|k: int|
            0 <= k < edges.len() ==> anchor_name(sub, layout_ids) != Some((#[trigger] edges[k]).from@) && anchor_name(
                sub,
                layout_ids,
            ) != Some(edges[k].to@),
        forall|k: int|
            0 <= k < edges.len() ==> (exists|j: int|
                0 <= j < sub.nodes@.len() && (#[trigger] sub.nodes@[j])@ == (#[trigger] edges[k]).from@) == (exists|j: int|
                0 <= j < sub.nodes@.len() && (#[trigger] sub.nodes@[j])@ == edges[k].to@),
    ensures
        anchorable(sub, edges, layout_ids),
{
    assert forall|k: int| 0 <= k < edges.len() implies {
        &&& (anchor_name(sub, layout_ids) matches Some(a) ==> (#[trigger] edges[k]).from@ != a && edges[k].to@ != a)
        &&& has_name(sub.nodes@, edges[k].from@) == has_name(sub.nodes@, edges[k].to@)
    } by {
        assert(anchor_name(sub, layout_ids) != Some(edges[k].from@));
        assert(anchor_name(sub, layout_ids) != Some(edges[k].to@));
    }
}

/// Whether `sub` can be anchored: it has members, no edge touches its
/// anchor node, and no edge crosses its border.
pub fn subgraph_is_anchorable(sub: &Subgraph, graph: &Graph, layout_ids: &Vec<String>) -> (res: bool)
    ensures
        res == anchorable(*sub, graph.edges@, layout_ids@),
{
    if sub.nodes.len() == 0 {
        return false;
    }
    let anchor = subgraph_anchor_id(sub, layout_ids);
    let mut k: usize = 0;
    while k < graph.edges.len()
        invariant
            k <= graph.edges.len(),
            sub.nodes@.len() > 0,
            match anchor {
                Some(a) => anchor_name(*sub, layout_ids@) == Some(a@),
                None => anchor_name(*sub, layout_ids@) is None,
            },
            forall|q: int|
                0 <= q < k ==> {
                    &&& (anchor_name(*sub, layout_ids@) matches Some(a) ==> (
                    #[trigger] graph.edges@[q]).from@ != a && graph.edges@[q].to@ != a)
                    &&& has_name(sub.nodes@, graph.edges@[q].from@) == has_name(
                        sub.nodes@,
                        graph.edges@[q].to@,
                    )
                },
        decreases graph.edges.len() - k,
    {
        let edge = &graph.edges[k];
        match &anchor {
            Some(a) => {
                if edge.from == *a || edge.to == *a {
                    return false;
                }
            },
            None => {},
        }
        let from_in = member(&sub.nodes, &edge.from);
        let to_in = member(&sub.nodes, &edge.to);
        if from_in != to_in {
            return false;
        }
        k += 1;
    }
    true
}

/// A subgraph is laid out around an anchor node: in flowcharts and state
/// diagrams when it has members and an anchor node, elsewhere when it can be
/// anchored.
pub open spec fn should_anchor(sub: Subgraph, graph: Graph, layout_ids: Seq<String>) -> bool {
    if sub.nodes@.len() == 0 {
        false
    } else if graph.kind == DiagramKind::Flowchart || graph.kind == DiagramKind::State {
        anchor_name(sub, layout_ids) is Some
    } else {
        anchorable(sub, graph.edges@, layout_ids)
    }
}

/// Whether `sub` is laid out around an anchor node.
pub fn subgraph_should_anchor(sub: &Subgraph, graph: &Graph, layout_ids: &Vec<String>) -> (res: bool)
    ensures
        res == should_anchor(*sub, *graph, layout_ids@),
{
    if sub.nodes.len() == 0 {
        return false;
    }
    if graph.kind == DiagramKind::Flowchart || graph.kind == DiagramKind::State {
        return subgraph_anchor_id(sub, layout_ids).is_some();
    }
    subgraph_is_anchorable(sub, graph, layout_ids)
}

/// The anchor nodes of all subgraphs of `graph`, each name once, in order of
/// first appearance: the nodes to hide when the subgraphs are drawn.
pub fn subgraph_anchor_ids(graph: &Graph, layout_ids: &Vec<String>) -> (ids: Vec<String>)
    ensures
        forall|a: int, b: int| 0 <= a < b < ids.len() ==> (#[trigger] ids@[a])@ != (#[trigger] ids@[b])@,
        forall|a: int| 0 <= a < ids.len() ==> #[trigger] anchors_some(graph.subgraphs@, layout_ids@, ids@[a]@),
        forall|t: int|
            0 <= t < graph.subgraphs.len() ==> (#[trigger] anchor_name(graph.subgraphs@[t], layout_ids@) matches Some(
                x,
            ) ==> has_name(ids@, x)),
{
    let mut ids: Vec<String> = Vec::new();
    let mut t: usize = 0;
    while t < graph.subgraphs.len()
        invariant
            t <= graph.subgraphs.len(),
            forall|a: int, b: int| 0 <= a < b < ids.len() ==> (#[trigger] ids@[a])@ != (#[trigger] ids@[b])@,
            forall|a: int|
                0 <= a < ids.len() ==> exists|u: int|
                    0 <= u < t && #[trigger] anchor_name(graph.subgraphs@[u], layout_ids@) == Some(
                        (#[trigger] ids@[a])@,
                    ),
            forall|u: int|
                0 <= u < t ==> (#[trigger] anchor_name(graph.subgraphs@[u], layout_ids@) matches Some(
                    x,
                ) ==> has_name(ids@, x)),
        decreases graph.subgraphs.len() - t,
    {
        let ghost i0 = ids@;
        match subgraph_anchor_id(&graph.subgraphs[t], layout_ids) {
            Some(a) => {
                if !member(&ids, &a) {
                    ids.push(a);
                }
            },
            None => {},
        }
        proof {
            assert forall|a: int| 0 <= a < ids.len() implies exists|u: int|
                0 <= u < t + 1 && #[trigger] anchor_name(graph.subgraphs@[u], layout_ids@) == Some(
                    (#[trigger] ids@[a])@,
                ) by {
                if a < i0.len() {
                    assert(ids@[a] == i0[a]);
                    let u = choose|u: int|
                        0 <= u < t && #[trigger] anchor_name(graph.subgraphs@[u], layout_ids@) == Some(
                            i0[a]@,
                        );
                } else {
                    assert(anchor_name(graph.subgraphs@[t as int], layout_ids@) == Some(ids@[a]@));
                }
            }
            assert forall|u: int| 0 <= u < t + 1 implies (#[trigger] anchor_name(
                graph.subgraphs@[u],
                layout_ids@,
            ) matches Some(x) ==> has_name(ids@, x)) by {
                if let Some(x) = anchor_name(graph.subgraphs@[u], layout_ids@) {
                    if u < t {
                        assert(has_name(i0, x));
                        let q = choose|q: int| 0 <= q < i0.len() && (#[trigger] i0[q])@ == x;
                        assert(ids@[q] == i0[q]);
                    } else if has_name(i0, x) {
                        let q = choose|q: int| 0 <= q < i0.len() && (#[trigger] i0[q])@ == x;
                        assert(ids@[q] == i0[q]);
                    } else {
                        assert(ids@[i0.len() as int]@ == x);
                    }
                }
            }
        }
        t += 1;
    }
    proof {
        assert forall|a: int| 0 <= a < ids.len() implies #[trigger] anchors_some(
            graph.subgraphs@,
            layout_ids@,
            ids@[a]@,
        ) by {
            let u = choose|u: int|
                0 <= u < t && #[trigger] anchor_name(graph.subgraphs@[u], layout_ids@) == Some(
                    ids@[a]@,
                );
            assert(anchor_name(graph.subgraphs@[u], layout_ids@) == Some(ids@[a]@));
        }
    }
    ids
}

/// Some subgraph of `subs` has the anchor node named `x`.
pub open spec fn anchors_some(subs: Seq<Subgraph>, layout_ids: Seq<String>, x: Seq<char>) -> bool {
    exists|t: int| 0 <= t < subs.len() && #[trigger] anchor_name(subs[t], layout_ids) == Some(x)
}

} // verus!
