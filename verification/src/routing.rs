//! The bookkeeping of edge routing that involves no geometry: which side of
//! a node an edge leaves from, how many edges already use each side, and how
//! many edges join each unordered pair of nodes.
use vstd::prelude::*;

use crate::ir::{Direction, Edge};
use crate::names::{lex_less, str_less};

verus! {

/// A side of a node's box.
#[derive(Debug, Clone, Copy, PartialEq, Eq, Structural)]
pub enum EdgeSide {
    Left,
    Right,
    Top,
    Bottom,
}

/// Ranks advance along the horizontal axis.
pub open spec fn spec_is_horizontal(direction: Direction) -> bool {
    direction == Direction::LeftRight || direction == Direction::RightLeft
}

/// Whether ranks advance along the horizontal axis.
pub fn is_horizontal(direction: Direction) -> (res: bool)
    ensures
        res == spec_is_horizontal(direction),
{
    match direction {
        Direction::LeftRight | Direction::RightLeft => true,
        _ => false,
    }
}

/// The side is an upright one (left or right).
pub open spec fn spec_side_is_vertical(side: EdgeSide) -> bool {
    side == EdgeSide::Left || side == EdgeSide::Right
}

/// Whether `side` is the left or the right side.
pub fn side_is_vertical(side: EdgeSide) -> (res: bool)
    ensures
        res == spec_side_is_vertical(side),
{
    match side {
        EdgeSide::Left | EdgeSide::Right => true,
        _ => false,
    }
}

/// Whether an edge that meets a node at `side` runs horizontally there:
/// it does exactly when the side is upright.
pub fn edge_axis_is_horizontal(side: EdgeSide) -> (res: bool)
    ensures
        res == spec_side_is_vertical(side),
{
    side_is_vertical(side)
}

/// The slot of a side in a node's four side counters.
pub open spec fn slot_of(side: EdgeSide) -> int {
    match side {
        EdgeSide::Left => 0,
        EdgeSide::Right => 1,
        EdgeSide::Top => 2,
        EdgeSide::Bottom => 3,
    }
}

/// The slot of `side` in a node's four side counters.
pub fn side_slot(side: EdgeSide) -> (slot: usize)
    ensures
        slot == slot_of(side),
        slot < 4,
{
    match side {
        EdgeSide::Left => 0,
        EdgeSide::Right => 1,
        EdgeSide::Top => 2,
        EdgeSide::Bottom => 3,
    }
}

/// For each node, by name, how many edges use each of its four sides.
pub struct SideLoads {
    pub entries: Vec<(String, [usize; 4])>,
}

impl SideLoads {
    /// One entry per node name.
    pub open spec fn well_formed(&self) -> bool {
        crate::ir::names_unique(self.entries@)
    }
}

/// Position of the first entry for the node spelled `name`.
pub open spec fn entry_of(entries: Seq<(String, [usize; 4])>, name: Seq<char>) -> Option<int>
    decreases entries.len(),
{
    if entries.len() == 0 {
        None
    } else {
        match entry_of(entries.drop_last(), name) {
            Some(k) => Some(k),
            None => if entries.last().0@ == name {
                Some(entries.len() - 1)
            } else {
                None
            },
        }
    }
}

pub proof fn lemma_entry_of(entries: Seq<(String, [usize; 4])>, name: Seq<char>)
    ensures
        match entry_of(entries, name) {
            Some(k) => 0 <= k < entries.len() && entries[k].0@ == name && forall|j: int|
                0 <= j < k ==> (#[trigger] entries[j]).0@ != name,
            None => forall|j: int| 0 <= j < entries.len() ==> (#[trigger] entries[j]).0@ != name,
        },
    decreases entries.len(),
{
    if entries.len() > 0 {
        lemma_entry_of(entries.drop_last(), name);
        assert forall|j: int| 0 <= j < entries.len() - 1 implies entries.drop_last()[j]
            == entries[j] by {}
    }
}

/// Lookups depend on the entries' names alone.
pub proof fn lemma_entry_of_same_names(
    e0: Seq<(String, [usize; 4])>,
    e1: Seq<(String, [usize; 4])>,
    name: Seq<char>,
)
    requires
        e0.len() == e1.len(),
        forall|j: int| 0 <= j < e0.len() ==> (#[trigger] e0[j]).0@ == e1[j].0@,
    ensures
        entry_of(e0, name) == entry_of(e1, name),
    decreases e0.len(),
{
    if e0.len() > 0 {
        lemma_entry_of_same_names(e0.drop_last(), e1.drop_last(), name);
    }
}

impl SideLoads {
    /// How many edges use slot `slot` of the node spelled `name`.
    pub open spec fn load(&self, name: Seq<char>, slot: int) -> nat {
        match entry_of(self.entries@, name) {
            Some(k) => self.entries@[k].1@[slot] as nat,
            None => 0,
        }
    }

    /// No edge on any side yet.
    pub fn new() -> (loads: SideLoads)
        ensures
            forall|name: Seq<char>, slot: int| loads.load(name, slot) == 0,
            loads.well_formed(),
    {
        SideLoads { entries: Vec::new() }
    }
}

/// Position of the entry for the node spelled `name`.
fn find_entry(entries: &Vec<(String, [usize; 4])>, name: &String) -> (res: Option<usize>)
    ensures
        match res {
            Some(k) => k < entries.len() && entry_of(entries@, name@) == Some(k as int),
            None => entry_of(entries@, name@) is None,
        },
{
    proof {
        lemma_entry_of(entries@, name@);
    }
    let mut k: usize = 0;
    while k < entries.len()
        invariant
            k <= entries.len(),
            forall|j: int| 0 <= j < k ==> (#[trigger] entries@[j]).0@ != name@,
            match entry_of(entries@, name@) {
                Some(p) => 0 <= p < entries.len() && entries@[p].0@ == name@ && forall|j: int|
                    0 <= j < p ==> (#[trigger] entries@[j]).0@ != name@,
                None => forall|j: int|
                    0 <= j < entries.len() ==> (#[trigger] entries@[j]).0@ != name@,
            },
        decreases entries.len() - k,
    {
        if entries[k].0 == *name {
            return Some(k);
        }
        k += 1;
    }
    None
}

/// How many edges already use `side` of the node `node_id`.
pub fn side_load_for_node(side_loads: &SideLoads, node_id: &str, side: EdgeSide) -> (res: usize)
    ensures
        res == side_loads.load(node_id@, slot_of(side)),
{
    let name = node_id.to_owned();
    match find_entry(&side_loads.entries, &name) {
        Some(k) => side_loads.entries[k].1[side_slot(side)],
        None => 0,
    }
}

/// Counts one more edge on `side` of the node `node_id`.
pub fn bump_side_load(side_loads: &mut SideLoads, node_id: &str, side: EdgeSide)
    requires
        old(side_loads).load(node_id@, slot_of(side)) < usize::MAX,
    ensures
        final(side_loads).load(node_id@, slot_of(side)) == old(side_loads).load(node_id@, slot_of(side)) + 1,
        forall|name: Seq<char>, slot: int|
            0 <= slot < 4 && (name != node_id@ || slot != slot_of(side)) ==> #[trigger] final(side_loads).load(name, slot)
                == old(side_loads).load(name, slot),
        old(side_loads).well_formed() ==> final(side_loads).well_formed(),
{
    let name = node_id.to_owned();
    let slot = side_slot(side);
    let ghost e0 = side_loads.entries@;
    proof {
        lemma_entry_of(e0, name@);
    }
    match find_entry(&side_loads.entries, &name) {
        Some(k) => {
            let mut slots = side_loads.entries[k].1;
            slots[slot] = slots[slot] + 1;
            side_loads.entries.set(k, (name, slots));
            proof {
                let e1 = side_loads.entries@;
                assert forall|j: int| 0 <= j < e0.len() implies (#[trigger] e0[j]).0@ == e1[j].0@ by {}
                assert forall|i: int, j: int| 0 <= i < j < e1.len() && crate::ir::names_unique(e0) implies (#[trigger] e1[i]).0@ != (#[trigger] e1[j]).0@ by {
                    assert(e0[i].0@ == e1[i].0@ && e0[j].0@ == e1[j].0@);
                }
                lemma_entry_of_same_names(e0, e1, name@);
                assert forall|other: Seq<char>, s2: int|
                    0 <= s2 < 4 && (other != node_id@ || s2 != slot_of(side)) implies #[trigger] side_loads.load(other, s2)
                    == old(side_loads).load(other, s2) by {
                    lemma_entry_of_same_names(e0, e1, other);
                    lemma_entry_of(e0, other);
                }
            }
        },
        None => {
            let mut slots: [usize; 4] = [0, 0, 0, 0];
            slots[slot] = 1;
            side_loads.entries.push((name, slots));
            proof {
                let e1 = side_loads.entries@;
                assert(e1.drop_last() =~= e0);
                assert forall|i: int, j: int| 0 <= i < j < e1.len() && crate::ir::names_unique(e0) implies (#[trigger] e1[i]).0@ != (#[trigger] e1[j]).0@ by {
                    if j == e0.len() {
                        assert(e0[i].0@ != node_id@);
                    } else {
                        assert(e1[i] == e0[i] && e1[j] == e0[j]);
                    }
                }
                assert forall|other: Seq<char>, s2: int|
                    0 <= s2 < 4 && (other != node_id@ || s2 != slot_of(side)) implies #[trigger] side_loads.load(other, s2)
                    == old(side_loads).load(other, s2) by {
                    lemma_entry_of(e0, other);
                }
            }
        },
    }
}

/// The unordered pair of an edge's end names, the smaller name first.
pub open spec fn pair_key(from: Seq<char>, to: Seq<char>) -> (Seq<char>, Seq<char>) {
    if !lex_less(to, from) {
        (from, to)
    } else {
        (to, from)
    }
}

/// The key under which `edge` is counted with the edges between the same
/// two nodes, whichever way they run.
pub fn edge_pair_key(edge: &Edge) -> (key: (String, String))
    ensures
        (key.0@, key.1@) == pair_key(edge.from@, edge.to@),
{
    if !str_less(edge.to.as_str(), edge.from.as_str()) {
        (edge.from.clone(), edge.to.clone())
    } else {
        (edge.to.clone(), edge.from.clone())
    }
}

/// Lexicographic order is a strict total order.
pub proof fn lemma_lex_total(a: Seq<char>, b: Seq<char>)
    ensures
        a != b ==> lex_less(a, b) || lex_less(b, a),
        !(lex_less(a, b) && lex_less(b, a)),
        !lex_less(a, a),
    decreases a.len(),
{
    if a.len() > 0 {
        lemma_lex_total(a.skip(1), a.skip(1));
    }
    if a.len() > 0 && b.len() > 0 {
        lemma_lex_total(a.skip(1), b.skip(1));
        if a[0] == b[0] && a != b {
            if a.skip(1) == b.skip(1) {
                assert(a =~= seq![a[0]] + a.skip(1));
                assert(b =~= seq![b[0]] + b.skip(1));
                assert(false);
            }
        }
    } else if a.len() == 0 && b.len() == 0 {
        assert(a =~= b);
    }
}

/// An edge and its reverse are counted under one key.
pub proof fn lemma_pair_key_symmetric(a: Seq<char>, b: Seq<char>)
    ensures
        pair_key(a, b) == pair_key(b, a),
{
    lemma_lex_total(a, b);
}

/// Number of edges among the first `upto` whose key is `key`.
pub open spec fn key_count(edges: Seq<Edge>, upto: int, key: (Seq<char>, Seq<char>)) -> nat
    decreases upto,
{
    if upto <= 0 {
        0
    } else {
        key_count(edges, upto - 1, key) + (if pair_key(edges[upto - 1].from@, edges[upto - 1].to@)
            == key {
            1nat
        } else {
            0nat
        })
    }
}

pub proof fn lemma_key_count_bound(edges: Seq<Edge>, upto: int, key: (Seq<char>, Seq<char>))
    requires
        0 <= upto,
    ensures
        key_count(edges, upto, key) <= upto,
    decreases upto,
{
    if upto > 0 {
        lemma_key_count_bound(edges, upto - 1, key);
    }
}

/// A key counted at least once is the pair key of one of the edges counted.
pub proof fn lemma_key_count_pos(edges: Seq<Edge>, upto: int, key: (Seq<char>, Seq<char>))
    requires
        0 <= upto <= edges.len(),
        key_count(edges, upto, key) > 0,
    ensures
        exists|k: int| 0 <= k < upto && pair_key((#[trigger] edges[k]).from@, edges[k].to@) == key,
    decreases upto,
{
    if pair_key(edges[upto - 1].from@, edges[upto - 1].to@) != key {
        lemma_key_count_pos(edges, upto - 1, key);
        let k = choose|k: int| 0 <= k < upto - 1 && pair_key((#[trigger] edges[k]).from@, edges[k].to@) == key;
        assert(0 <= k < upto);
    }
}

/// The spelled key of a counted pair.
pub open spec fn key_view(k: (String, String)) -> (Seq<char>, Seq<char>) {
    (k.0@, k.1@)
}

/// For each unordered pair of nodes joined by an edge, how many edges join
/// them, in order of the pair's first edge.
pub fn build_edge_pair_counts(edges: &Vec<Edge>) -> (counts: Vec<((String, String), usize)>)
    ensures
        forall|a: int, b: int|
            0 <= a < b < counts.len() ==> key_view(#[trigger] counts@[a].0) != key_view(
                #[trigger] counts@[b].0,
            ),
        forall|t: int|
            0 <= t < counts.len() ==> #[trigger] counts@[t].1 == key_count(
                edges@,
                edges.len() as int,
                key_view(counts@[t].0),
            ),
        forall|k: int|
            0 <= k < edges.len() ==> exists|t: int|
                0 <= t < counts.len() && #[trigger] key_view(counts@[t].0) == pair_key(
                    (#[trigger] edges@[k]).from@,
                    edges@[k].to@,
                ),
        forall|t: int|
            0 <= t < counts.len() ==> #[trigger] counts@[t].1 >= 1 && exists|k: int|
                0 <= k < edges.len() && pair_key((#[trigger] edges@[k]).from@, edges@[k].to@) == key_view(counts@[t].0),
{
    let mut keys: Vec<(String, String)> = Vec::new();
    let mut ns: Vec<usize> = Vec::new();
    let mut i: usize = 0;
    while i < edges.len()
        invariant
            i <= edges.len(),
            keys.len() == ns.len(),
            forall|a: int, b: int|
                0 <= a < b < keys.len() ==> key_view(#[trigger] keys@[a]) != key_view(
                    #[trigger] keys@[b],
                ),
            forall|t: int|
                0 <= t < keys.len() ==> #[trigger] ns@[t] == key_count(
                    edges@,
                    i as int,
                    key_view(keys@[t]),
                ),
            forall|t: int| 0 <= t < keys.len() ==> #[trigger] ns@[t] >= 1,
            forall|k: int|
                0 <= k < i ==> exists|t: int|
                    0 <= t < keys.len() && #[trigger] key_view(keys@[t]) == pair_key(
                        (#[trigger] edges@[k]).from@,
                        edges@[k].to@,
                    ),
        decreases edges.len() - i,
    {
        let key = edge_pair_key(&edges[i]);
        let ghost kv = key_view(key);
        let mut t: usize = 0;
        let mut found = false;
        while t < keys.len() && !found
            invariant
                t <= keys.len(),
                kv == key_view(key),
                found ==> t < keys.len() && key_view(keys@[t as int]) == kv,
                !found ==> forall|q: int| 0 <= q < t ==> key_view(#[trigger] keys@[q]) != kv,
            decreases keys.len() - t + (if found {
                0int
            } else {
                1int
            }),
        {
            if keys[t].0 == key.0 && keys[t].1 == key.1 {
                found = true;
            } else {
                t += 1;
            }
        }
        let ghost ns0 = ns@;
        let ghost keys0 = keys@;
        if found {
            proof {
                lemma_key_count_bound(edges@, i as int, kv);
            }
            let c = ns[t];
            ns.set(t, c + 1);
        } else {
            keys.push(key);
            ns.push(1);
        }
        proof {
            assert forall|q: int| 0 <= q < keys.len() implies #[trigger] ns@[q] == key_count(
                edges@,
                i + 1,
                key_view(keys@[q]),
            ) by {
                if q < keys0.len() {
                    assert(keys@[q] == keys0[q]);
                } else {
                    assert(key_count(edges@, i as int, kv) == 0) by {
                        lemma_key_count_zero(edges@, i as int, kv);
                        assert forall|k: int| 0 <= k < i implies pair_key(
                            edges@[k].from@,
                            edges@[k].to@,
                        ) != kv by {
                            let w = choose|w: int|
                                0 <= w < keys0.len() && #[trigger] key_view(keys0[w]) == pair_key(
                                    edges@[k].from@,
                                    edges@[k].to@,
                                );
                        }
                    }
                }
            }
            assert forall|k: int| 0 <= k < i + 1 implies exists|w: int|
                0 <= w < keys.len() && #[trigger] key_view(keys@[w]) == pair_key(
                    (#[trigger] edges@[k]).from@,
                    edges@[k].to@,
                ) by {
                if k < i {
                    let w = choose|w: int|
                        0 <= w < keys0.len() && #[trigger] key_view(keys0[w]) == pair_key(
                            edges@[k].from@,
                            edges@[k].to@,
                        );
                    assert(keys@[w] == keys0[w]);
                } else {
                    assert(key_view(keys@[t as int]) == kv);
                }
            }
        }
        i += 1;
    }
    let mut counts: Vec<((String, String), usize)> = Vec::new();
    let mut t: usize = 0;
    while t < keys.len()
        invariant
            t <= keys.len(),
            keys.len() == ns.len(),
            counts.len() == t,
            forall|q: int| 0 <= q < t ==> #[trigger] counts@[q] == (keys@[q], ns@[q]),
        decreases keys.len() - t,
    {
        let key = (keys[t].0.clone(), keys[t].1.clone());
        counts.push((key, ns[t]));
        t += 1;
    }
    proof {
        assert forall|k: int| 0 <= k < edges.len() implies exists|w: int|
            0 <= w < counts.len() && #[trigger] key_view(counts@[w].0) == pair_key(
                (#[trigger] edges@[k]).from@,
                edges@[k].to@,
            ) by {
            let w = choose|w: int|
                0 <= w < keys.len() && #[trigger] key_view(keys@[w]) == pair_key(
                    edges@[k].from@,
                    edges@[k].to@,
                );
            assert(counts@[w].0 == keys@[w]);
        }
        assert forall|t2: int| 0 <= t2 < counts.len() implies #[trigger] counts@[t2].1 >= 1 && exists|k: int|
            0 <= k < edges.len() && pair_key((#[trigger] edges@[k]).from@, edges@[k].to@) == key_view(counts@[t2].0) by {
            assert(counts@[t2] == (keys@[t2], ns@[t2]));
            assert(ns@[t2] >= 1);
            lemma_key_count_pos(edges@, edges.len() as int, key_view(keys@[t2]));
        }
    }
    counts
}

/// No edge so far has key `key`, so none is counted.
pub proof fn lemma_key_count_zero(edges: Seq<Edge>, upto: int, key: (Seq<char>, Seq<char>))
    requires
        forall|k: int| 0 <= k < upto ==> pair_key(edges[k].from@, edges[k].to@) != key,
    ensures
        key_count(edges, upto, key) == 0,
    decreases upto,
{
    if upto > 0 {
        lemma_key_count_zero(edges, upto - 1, key);
    }
}

} // verus!
