//! Ordering the nodes inside each rank so that edges between neighbouring
//! ranks cross little: median sorting followed by adjacent transpositions.
use vstd::prelude::*;
use vstd::relations::{sorted_by, total_ordering};

verus! {

/// Sum of `f(x, y)` over the entries `y` of `s`.
pub open spec fn row_sum(f: spec_fn(usize, usize) -> nat, x: usize, s: Seq<usize>) -> nat
    decreases s.len(),
{
    if s.len() == 0 {
        0
    } else {
        f(x, s[0]) + row_sum(f, x, s.drop_first())
    }
}

/// Sum of `f(s[i], s[j])` over all positions `i < j`.
pub open spec fn pair_sum(f: spec_fn(usize, usize) -> nat, s: Seq<usize>) -> nat
    decreases s.len(),
{
    if s.len() == 0 {
        0
    } else {
        row_sum(f, s[0], s.drop_first()) + pair_sum(f, s.drop_first())
    }
}

/// `s` with the entries at `i` and `i + 1` exchanged.
pub open spec fn swap_adjacent(s: Seq<usize>, i: int) -> Seq<usize> {
    s.update(i, s[i + 1]).update(i + 1, s[i])
}

proof fn lemma_row_sum_swap(f: spec_fn(usize, usize) -> nat, x: usize, s: Seq<usize>, i: int)
    requires
        0 <= i < s.len() - 1,
    ensures
        row_sum(f, x, swap_adjacent(s, i)) == row_sum(f, x, s),
    decreases s.len(),
{
    let t = swap_adjacent(s, i);
    if i == 0 {
        let r = s.drop_first().drop_first();
        assert(t.drop_first().drop_first() =~= r);
        assert(t[0] == s[1]);
        assert(t.drop_first()[0] == s[0]);
        assert(s.drop_first()[0] == s[1]);
        assert(row_sum(f, x, t) == f(x, t[0]) + row_sum(f, x, t.drop_first()));
        assert(row_sum(f, x, t.drop_first()) == f(x, t.drop_first()[0]) + row_sum(f, x, r));
        assert(row_sum(f, x, s) == f(x, s[0]) + row_sum(f, x, s.drop_first()));
        assert(row_sum(f, x, s.drop_first()) == f(x, s.drop_first()[0]) + row_sum(f, x, r));
    } else {
        assert(t[0] == s[0]);
        assert(t.drop_first() =~= swap_adjacent(s.drop_first(), i - 1));
        lemma_row_sum_swap(f, x, s.drop_first(), i - 1);
    }
}

/// Exchanging two neighbours changes the pair sum only by the term of that
/// pair.
pub proof fn lemma_pair_sum_swap(f: spec_fn(usize, usize) -> nat, s: Seq<usize>, i: int)
    requires
        0 <= i < s.len() - 1,
    ensures
        pair_sum(f, swap_adjacent(s, i)) + f(s[i], s[i + 1]) == pair_sum(f, s) + f(s[i + 1], s[i]),
    decreases s.len(),
{
    let t = swap_adjacent(s, i);
    if i == 0 {
        let r = s.drop_first().drop_first();
        assert(t.drop_first().drop_first() =~= r);
        assert(t[0] == s[1]);
        assert(t.drop_first()[0] == s[0]);
        assert(s.drop_first()[0] == s[1]);
        let a = s[0];
        let b = s[1];
        assert(pair_sum(f, t) == row_sum(f, b, t.drop_first()) + pair_sum(f, t.drop_first()));
        assert(row_sum(f, b, t.drop_first()) == f(b, a) + row_sum(f, b, r));
        assert(pair_sum(f, t.drop_first()) == row_sum(f, a, r) + pair_sum(f, r));
        assert(pair_sum(f, s) == row_sum(f, a, s.drop_first()) + pair_sum(f, s.drop_first()));
        assert(row_sum(f, a, s.drop_first()) == f(a, b) + row_sum(f, a, r));
        assert(pair_sum(f, s.drop_first()) == row_sum(f, b, r) + pair_sum(f, r));
    } else {
        assert(t.drop_first() =~= swap_adjacent(s.drop_first(), i - 1));
        assert(t[0] == s[0]);
        lemma_row_sum_swap(f, s[0], s.drop_first(), i - 1);
        lemma_pair_sum_swap(f, s.drop_first(), i - 1);
    }
}


/// Exchanging two neighbours keeps the multiset of entries.
pub proof fn lemma_swap_multiset(s: Seq<usize>, i: int)
    requires
        0 <= i < s.len() - 1,
    ensures
        swap_adjacent(s, i).to_multiset() == s.to_multiset(),
        swap_adjacent(s, i).len() == s.len(),
{
    broadcast use vstd::seq_lib::group_to_multiset_ensures;
    broadcast use vstd::multiset::group_multiset_axioms;
    let pre = s.take(i);
    let post = s.skip(i + 2);
    let ab = seq![s[i], s[i + 1]];
    let ba = seq![s[i + 1], s[i]];
    assert(s =~= pre + ab + post);
    assert(swap_adjacent(s, i) =~= pre + ba + post);
    vstd::seq_lib::lemma_multiset_commutative(pre + ab, post);
    vstd::seq_lib::lemma_multiset_commutative(pre + ba, post);
    vstd::seq_lib::lemma_multiset_commutative(pre, ab);
    vstd::seq_lib::lemma_multiset_commutative(pre, ba);
    assert(ab =~= seq![s[i]].push(s[i + 1]));
    assert(ba =~= seq![s[i + 1]].push(s[i]));
    assert(seq![s[i]] =~= Seq::<usize>::empty().push(s[i]));
    assert(seq![s[i + 1]] =~= Seq::<usize>::empty().push(s[i + 1]));
    assert(ab.to_multiset() =~= ba.to_multiset());
}

/// Number of entries of `q` below `x`.
pub open spec fn count_below(x: usize, q: Seq<usize>) -> nat
    decreases q.len(),
{
    if q.len() == 0 {
        0
    } else {
        count_below(x, q.drop_last()) + (if q.last() < x {
            1nat
        } else {
            0nat
        })
    }
}

/// Number of pairs `(a, b)`, `a` from `p` and `b` from `q`, with `a > b`:
/// the crossings between the edges of a node with neighbour positions `p`
/// placed before a node with neighbour positions `q`.
pub open spec fn crossings(p: Seq<usize>, q: Seq<usize>) -> nat
    decreases p.len(),
{
    if p.len() == 0 {
        0
    } else {
        crossings(p.drop_last(), q) + count_below(p.last(), q)
    }
}

proof fn lemma_count_below_bound(x: usize, q: Seq<usize>)
    ensures
        count_below(x, q) <= q.len(),
    decreases q.len(),
{
    if q.len() > 0 {
        lemma_count_below_bound(x, q.drop_last());
    }
}

proof fn lemma_crossings_bound(p: Seq<usize>, q: Seq<usize>)
    ensures
        crossings(p, q) <= p.len() * q.len(),
    decreases p.len(),
{
    if p.len() > 0 {
        lemma_crossings_bound(p.drop_last(), q);
        lemma_count_below_bound(p.last(), q);
        assert((p.len() - 1) * q.len() + q.len() == p.len() * q.len()) by (nonlinear_arith);
    }
}

/// A node without placed neighbours crosses nothing, on either side.
pub proof fn lemma_crossings_empty(p: Seq<usize>, q: Seq<usize>)
    ensures
        p.len() == 0 ==> crossings(p, q) == 0,
        q.len() == 0 ==> crossings(p, q) == 0,
    decreases p.len(),
{
    if p.len() > 0 {
        lemma_crossings_empty(p.drop_last(), q);
    }
}

/// A prefix of `p` crosses `q` no more often than `p` does.
proof fn lemma_crossings_prefix(p: Seq<usize>, q: Seq<usize>, i: int)
    requires
        0 <= i <= p.len(),
    ensures
        crossings(p.take(i), q) <= crossings(p, q),
    decreases p.len(),
{
    if i < p.len() {
        assert(p.drop_last().take(i) =~= p.take(i));
        lemma_crossings_prefix(p.drop_last(), q, i);
    } else {
        assert(p.take(i) =~= p);
    }
}

fn crossings_of(p: &Vec<usize>, q: &Vec<usize>) -> (res: usize)
    requires
        crossings(p@, q@) <= usize::MAX,
    ensures
        res == crossings(p@, q@),
{
    let mut total: usize = 0;
    let mut i: usize = 0;
    while i < p.len()
        invariant
            i <= p.len(),
            crossings(p@, q@) <= usize::MAX,
            total == crossings(p@.take(i as int), q@),
        decreases p.len() - i,
    {
        let mut below: usize = 0;
        let mut j: usize = 0;
        while j < q.len()
            invariant
                j <= q.len(),
                i < p.len(),
                below == count_below(p@[i as int], q@.take(j as int)),
                below <= j,
            decreases q.len() - j,
        {
            proof {
                assert(q@.take(j + 1).drop_last() =~= q@.take(j as int));
            }
            if q[j] < p[i] {
                below += 1;
            }
            j += 1;
        }
        proof {
            assert(q@.take(q.len() as int) =~= q@);
            assert(p@.take(i + 1).drop_last() =~= p@.take(i as int));
            lemma_crossings_prefix(p@, q@, i + 1);
        }
        total = total + below;
        i += 1;
    }
    proof {
        assert(p@.take(p.len() as int) =~= p@);
    }
    total
}

/// Edge crossings between two neighbouring nodes of a rank: the first count
/// with `pa`'s node placed first, the second with `pb`'s node placed first.
/// `pa` and `pb` are the positions of the two nodes' neighbours; both counts
/// must fit in a `usize`.
pub fn pair_crossings(pa: &Vec<usize>, pb: &Vec<usize>) -> (res: (usize, usize))
    requires
        crossings(pa@, pb@) <= usize::MAX,
        crossings(pb@, pa@) <= usize::MAX,
    ensures
        res.0 == crossings(pa@, pb@),
        res.1 == crossings(pb@, pa@),
{
    (crossings_of(pa, pb), crossings_of(pb, pa))
}

/// With neighbour positions `nbpos` and tie order `ord`, node `b` should
/// move in front of its left neighbour `a`: fewer crossings that way, or as
/// many and `b` earlier in `ord`.
pub open spec fn should_swap(nbpos: Seq<Seq<usize>>, ord: Seq<usize>, a: usize, b: usize) -> bool {
    crossings(nbpos[b as int], nbpos[a as int]) < crossings(nbpos[a as int], nbpos[b as int]) || (
    crossings(nbpos[b as int], nbpos[a as int]) == crossings(nbpos[a as int], nbpos[b as int])
        && ord[a as int] > ord[b as int])
}

/// Total crossings of a rank order.
pub open spec fn total_crossings(nbpos: Seq<Seq<usize>>, s: Seq<usize>) -> nat {
    pair_sum(|x: usize, y: usize| crossings(nbpos[x as int], nbpos[y as int]), s)
}

/// Number of pairs out of `ord` order.
pub open spec fn order_inversions(ord: Seq<usize>, s: Seq<usize>) -> nat {
    pair_sum(
        |x: usize, y: usize|
            if ord[x as int] > ord[y as int] {
                1nat
            } else {
                0nat
            },
        s,
    )
}

/// `(c1, i1)` is below `(c2, i2)` in lexicographic order.
pub open spec fn measure_below(c1: nat, i1: nat, c2: nat, i2: nat) -> bool {
    c1 < c2 || (c1 == c2 && i1 < i2)
}

/// The sizes of all neighbour lists multiply without overflow.
pub open spec fn products_fit(nbpos: Seq<Seq<usize>>) -> bool {
    forall|x: int, y: int|
        0 <= x < nbpos.len() && 0 <= y < nbpos.len() ==> #[trigger] nbpos[x].len() * #[trigger] nbpos[y].len()
            <= usize::MAX
}

/// One pass of exchanges over `s`, from position `i` rightwards: each
/// neighbouring pair that should be exchanged is exchanged, and the pass goes
/// on with the node that moved right.
pub open spec fn sweep(nb: Seq<Seq<usize>>, ord: Seq<usize>, s: Seq<usize>, i: int) -> Seq<usize>
    decreases s.len() - i,
{
    if i < 0 || i >= s.len() - 1 {
        s
    } else if should_swap(nb, ord, s[i], s[i + 1]) {
        sweep(nb, ord, swap_adjacent(s, i), i + 1)
    } else {
        sweep(nb, ord, s, i + 1)
    }
}

/// An exchange that should be made lowers the crossings, or keeps them and
/// lowers the inversions of `ord`.
pub proof fn lemma_swap_measure(nb: Seq<Seq<usize>>, ord: Seq<usize>, s: Seq<usize>, i: int)
    requires
        0 <= i < s.len() - 1,
        should_swap(nb, ord, s[i], s[i + 1]),
    ensures
        measure_below(
            total_crossings(nb, swap_adjacent(s, i)),
            order_inversions(ord, swap_adjacent(s, i)),
            total_crossings(nb, s),
            order_inversions(ord, s),
        ),
{
    let fc = |x: usize, y: usize| crossings(nb[x as int], nb[y as int]);
    let fo = |x: usize, y: usize|
        if ord[x as int] > ord[y as int] {
            1nat
        } else {
            0nat
        };
    lemma_pair_sum_swap(fc, s, i);
    lemma_pair_sum_swap(fo, s, i);
}

/// A pass either changes nothing or lowers the measure; it keeps the
/// entries.
pub proof fn lemma_sweep_measure(nb: Seq<Seq<usize>>, ord: Seq<usize>, s: Seq<usize>, i: int)
    ensures
        sweep(nb, ord, s, i) == s || measure_below(
            total_crossings(nb, sweep(nb, ord, s, i)),
            order_inversions(ord, sweep(nb, ord, s, i)),
            total_crossings(nb, s),
            order_inversions(ord, s),
        ),
        sweep(nb, ord, s, i).len() == s.len(),
        sweep(nb, ord, s, i).to_multiset() == s.to_multiset(),
    decreases s.len() - i,
{
    if i < 0 || i >= s.len() - 1 {
    } else if should_swap(nb, ord, s[i], s[i + 1]) {
        let t = swap_adjacent(s, i);
        lemma_swap_measure(nb, ord, s, i);
        lemma_swap_multiset(s, i);
        lemma_sweep_measure(nb, ord, t, i + 1);
    } else {
        lemma_sweep_measure(nb, ord, s, i + 1);
    }
}

/// Passes of exchanges over `s` until a pass changes nothing.
pub open spec fn transposed(nb: Seq<Seq<usize>>, ord: Seq<usize>, s: Seq<usize>) -> Seq<usize>
    decreases total_crossings(nb, s), order_inversions(ord, s),
{
    let t = sweep(nb, ord, s, 0);
    if t == s {
        s
    } else {
        proof {
            lemma_sweep_measure(nb, ord, s, 0);
        }
        transposed(nb, ord, t)
    }
}

/// Repeatedly exchanges neighbouring nodes of `bucket` when the right one
/// should come first, until no neighbouring pair should be exchanged. Each
/// exchange lowers the crossings, or keeps them and lowers the inversions of
/// `ord`, so the sweeps end.
pub fn transpose_bucket(bucket: &mut Vec<usize>, nbpos: &Vec<Vec<usize>>, ord: &Vec<usize>)
    requires
        forall|k: int| 0 <= k < old(bucket)@.len() ==> #[trigger] old(bucket)@[k] < nbpos.len(),
        ord.len() == nbpos.len(),
        products_fit(nbpos.deep_view()),
    ensures
        final(bucket)@.len() == old(bucket)@.len(),
        final(bucket)@.to_multiset() == old(bucket)@.to_multiset(),
        forall|k: int| 0 <= k < final(bucket)@.len() ==> #[trigger] final(bucket)@[k] < nbpos.len(),
        forall|i: int|
            0 <= i < final(bucket)@.len() - 1 ==> !should_swap(
                nbpos.deep_view(),
                ord@,
                #[trigger] final(bucket)@[i],
                final(bucket)@[i + 1],
            ),
        final(bucket)@ == transposed(nbpos.deep_view(), ord@, old(bucket)@),
{
    let ghost nb = nbpos.deep_view();
    let ghost b0 = bucket@;
    if bucket.len() <= 1 {
        return ;
    }
    let len = bucket.len();
    let mut improved = true;
    while improved
        invariant
            bucket@.len() == len,
            len >= 2,
            nb == nbpos.deep_view(),
            ord.len() == nbpos.len(),
            products_fit(nb),
            bucket@.to_multiset() == b0.to_multiset(),
            forall|k: int| 0 <= k < bucket@.len() ==> #[trigger] bucket@[k] < nbpos.len(),
            !improved ==> forall|i: int|
                0 <= i < bucket@.len() - 1 ==> !should_swap(nb, ord@, #[trigger] bucket@[i], bucket@[i + 1]),
            transposed(nb, ord@, bucket@) == transposed(nb, ord@, b0),
            !improved ==> sweep(nb, ord@, bucket@, 0) == bucket@,
        decreases total_crossings(nb, bucket@), order_inversions(ord@, bucket@), (if improved {
            1int
        } else {
            0int
        }),
    {
        let ghost start = bucket@;
        improved = false;
        let mut i: usize = 0;
        while i < len - 1
            invariant
                i <= len - 1,
                bucket@.len() == len,
                len >= 2,
                nb == nbpos.deep_view(),
                ord.len() == nbpos.len(),
                products_fit(nb),
                bucket@.to_multiset() == b0.to_multiset(),
                forall|k: int| 0 <= k < bucket@.len() ==> #[trigger] bucket@[k] < nbpos.len(),
                !improved ==> bucket@ == start,
                !improved ==> forall|k: int|
                    0 <= k < i ==> !should_swap(nb, ord@, #[trigger] bucket@[k], bucket@[k + 1]),
                improved ==> measure_below(
                    total_crossings(nb, bucket@),
                    order_inversions(ord@, bucket@),
                    total_crossings(nb, start),
                    order_inversions(ord@, start),
                ),
                sweep(nb, ord@, bucket@, i as int) == sweep(nb, ord@, start, 0),
                transposed(nb, ord@, start) == transposed(nb, ord@, b0),
            decreases len - 1 - i,
        {
            let a = bucket[i];
            let b = bucket[i + 1];
            proof {
                assert(bucket@[i as int] < nbpos.len());
                assert(bucket@[i + 1] < nbpos.len());
                assert(nb[a as int].len() * nb[b as int].len() <= usize::MAX);
                assert(nb[b as int].len() * nb[a as int].len() <= usize::MAX);
                assert(nb[a as int] == nbpos@[a as int]@);
                assert(nb[b as int] == nbpos@[b as int]@);
                lemma_crossings_bound(nb[a as int], nb[b as int]);
                lemma_crossings_bound(nb[b as int], nb[a as int]);
            }
            let (crossings_ab, crossings_ba) = pair_crossings(&nbpos[a], &nbpos[b]);
            let should = if crossings_ba < crossings_ab {
                true
            } else if crossings_ba > crossings_ab {
                false
            } else {
                ord[a] > ord[b]
            };
            if should {
                let ghost before = bucket@;
                bucket.set(i, b);
                bucket.set(i + 1, a);
                proof {
                    assert(bucket@ =~= swap_adjacent(before, i as int));
                    lemma_swap_multiset(before, i as int);
                    let fc = |x: usize, y: usize| crossings(nb[x as int], nb[y as int]);
                    let fo = |x: usize, y: usize|
                        if ord@[x as int] > ord@[y as int] {
                            1nat
                        } else {
                            0nat
                        };
                    lemma_pair_sum_swap(fc, before, i as int);
                    lemma_pair_sum_swap(fo, before, i as int);
                    assert forall|k: int| 0 <= k < bucket@.len() implies #[trigger] bucket@[k] < nbpos.len() by {
                        if k != i && k != i + 1 {
                            assert(bucket@[k] == before[k]);
                        }
                    }
                }
                improved = true;
            }
            proof {
                if !improved {
                    assert forall|k: int|
                        0 <= k < i + 1 implies !should_swap(nb, ord@, #[trigger] bucket@[k], bucket@[k + 1]) by {
                    }
                }
            }
            i += 1;
        }
        proof {
            assert(sweep(nb, ord@, bucket@, i as int) == bucket@);
            if improved {
                assert(bucket@ != start);
                assert(transposed(nb, ord@, start) == transposed(nb, ord@, sweep(nb, ord@, start, 0)));
            }
        }
    }
}


proof fn lemma_insert_multiset(s: Seq<usize>, p: int, x: usize)
    requires
        0 <= p <= s.len(),
    ensures
        s.insert(p, x).to_multiset() == s.to_multiset().insert(x),
{
    broadcast use vstd::seq_lib::group_to_multiset_ensures;
    broadcast use vstd::multiset::group_multiset_axioms;
    let a = s.take(p);
    let b = s.skip(p);
    assert(s =~= a + b);
    assert(s.insert(p, x) =~= a.push(x) + b);
    vstd::seq_lib::lemma_multiset_commutative(a, b);
    vstd::seq_lib::lemma_multiset_commutative(a.push(x), b);
    assert(s.insert(p, x).to_multiset() =~= s.to_multiset().insert(x));
}

/// Ascending order of integers.
pub open spec fn le_usize() -> spec_fn(usize, usize) -> bool {
    |a: usize, b: usize| a <= b
}

/// `v` in ascending order (insertion sort).
pub fn sort_values(v: &Vec<usize>) -> (res: Vec<usize>)
    ensures
        res@.to_multiset() == v@.to_multiset(),
        res@.len() == v@.len(),
        sorted_by(res@, le_usize()),
{
    broadcast use vstd::seq_lib::group_to_multiset_ensures;
    let mut res: Vec<usize> = Vec::new();
    let mut i: usize = 0;
    while i < v.len()
        invariant
            i <= v.len(),
            res@.to_multiset() == v@.take(i as int).to_multiset(),
            res@.len() == i,
            sorted_by(res@, le_usize()),
        decreases v.len() - i,
    {
        let x = v[i];
        let mut p: usize = 0;
        while p < res.len() && res[p] <= x
            invariant
                p <= res.len(),
                forall|q: int| 0 <= q < p ==> res@[q] <= x,
            decreases res.len() - p,
        {
            p += 1;
        }
        let ghost r0 = res@;
        res.insert(p, x);
        proof {
            r0.insert_ensures(p as int, x);
            lemma_insert_multiset(r0, p as int, x);
            assert(v@.take(i + 1) =~= v@.take(i as int).push(x));
            v@.take(i as int).to_multiset_ensures();
            assert(v@.take(i as int).push(x).to_multiset() =~= v@.take(i as int).to_multiset().insert(x));
            assert(res@.to_multiset() == v@.take(i + 1).to_multiset());
            assert forall|a: int, b: int| 0 <= a < b < res@.len() implies #[trigger] (le_usize())(res@[a], res@[b]) by {
                if b < p {
                    assert(res@[a] == r0[a] && res@[b] == r0[b]);
                    assert((le_usize())(r0[a], r0[b]));
                } else if b == p {
                    assert(res@[a] == r0[a]);
                } else if a < p {
                    assert(res@[a] == r0[a] && res@[b] == r0[b - 1]);
                    assert((le_usize())(r0[a], r0[b - 1]));
                } else if a == p {
                    assert(res@[b] == r0[b - 1]);
                    assert(p < r0.len());
                    assert(r0[p as int] > x);
                    if b - 1 > p {
                        assert((le_usize())(r0[p as int], r0[b - 1]));
                    }
                } else {
                    assert(res@[a] == r0[a - 1] && res@[b] == r0[b - 1]);
                    assert((le_usize())(r0[a - 1], r0[b - 1]));
                }
            }
        }
        i += 1;
    }
    proof {
        assert(v@.take(v.len() as int) =~= v@);
    }
    res
}

/// Twice the median of `values` (the mean of the two middle entries when
/// there is an even number of them).
pub open spec fn median_doubled(values: Seq<usize>) -> int {
    let s = values.sort_by(le_usize());
    let mid = (s.len() / 2) as int;
    if s.len() % 2 == 1 {
        2 * s[mid]
    } else {
        s[mid - 1] + s[mid]
    }
}

proof fn lemma_le_usize_total()
    ensures
        total_ordering(le_usize()),
{
}

/// Twice the median neighbour position of a node, or twice `fallback` (its
/// own position) when it has no placed neighbour. Doubling keeps the median
/// of an even count exact.
pub fn median_position(values: &Vec<usize>, fallback: usize) -> (res: u128)
    ensures
        values@.len() == 0 ==> res == 2 * fallback,
        values@.len() > 0 ==> res == median_doubled(values@),
{
    if values.len() == 0 {
        return 2 * (fallback as u128);
    }
    let sorted = sort_values(values);
    proof {
        lemma_le_usize_total();
        values@.lemma_sort_by_ensures(le_usize());
        vstd::seq_lib::lemma_sorted_unique(sorted@, values@.sort_by(le_usize()), le_usize());
    }
    let mid = sorted.len() / 2;
    if sorted.len() % 2 == 1 {
        2 * (sorted[mid] as u128)
    } else {
        (sorted[mid - 1] as u128) + (sorted[mid] as u128)
    }
}


/// `(k1, k2, k3)` of `x` is at most that of `y`, in lexicographic order.
pub open spec fn keys_le(k1: Seq<u128>, k2: Seq<usize>, k3: Seq<usize>, x: usize, y: usize) -> bool {
    k1[x as int] < k1[y as int] || (k1[x as int] == k1[y as int] && (k2[x as int] < k2[y as int] || (
    k2[x as int] == k2[y as int] && k3[x as int] <= k3[y as int])))
}

fn keys_le_exec(k1: &Vec<u128>, k2: &Vec<usize>, k3: &Vec<usize>, x: usize, y: usize) -> (res: bool)
    requires
        x < k1.len() && x < k2.len() && x < k3.len(),
        y < k1.len() && y < k2.len() && y < k3.len(),
    ensures
        res == keys_le(k1@, k2@, k3@, x, y),
{
    k1[x] < k1[y] || (k1[x] == k1[y] && (k2[x] < k2[y] || (k2[x] == k2[y] && k3[x] <= k3[y])))
}

/// Where insertion puts `x` into `r`, scanning from position `p`: before
/// the first entry whose keys are not at most `x`'s, or at the end.
pub open spec fn insert_point(k1: Seq<u128>, k2: Seq<usize>, k3: Seq<usize>, r: Seq<usize>, x: usize, p: int) -> int
    decreases r.len() - p,
{
    if p < 0 || p >= r.len() || !keys_le(k1, k2, k3, r[p], x) {
        p
    } else {
        insert_point(k1, k2, k3, r, x, p + 1)
    }
}

/// `items` put one by one, in order, into a sorted sequence, each at its
/// insertion point.
pub open spec fn insertion_sorted(k1: Seq<u128>, k2: Seq<usize>, k3: Seq<usize>, items: Seq<usize>) -> Seq<usize>
    decreases items.len(),
{
    if items.len() == 0 {
        Seq::empty()
    } else {
        let r = insertion_sorted(k1, k2, k3, items.drop_last());
        r.insert(insert_point(k1, k2, k3, r, items.last(), 0), items.last())
    }
}

/// `items` sorted by `(k1, k2, k3)`, equal keys keeping their order
/// (insertion sort).
pub fn sort_by_keys(items: &Vec<usize>, k1: &Vec<u128>, k2: &Vec<usize>, k3: &Vec<usize>) -> (res: Vec<usize>)
    requires
        forall|t: int| 0 <= t < items@.len() ==> #[trigger] items@[t] < k1.len(),
        k2.len() == k1.len(),
        k3.len() == k1.len(),
    ensures
        res@.to_multiset() == items@.to_multiset(),
        res@.len() == items@.len(),
        forall|t: int| 0 <= t < res@.len() ==> #[trigger] res@[t] < k1.len(),
        forall|a: int, b: int| 0 <= a < b < res@.len() ==> keys_le(k1@, k2@, k3@, #[trigger] res@[a], #[trigger] res@[b]),
        res@ == insertion_sorted(k1@, k2@, k3@, items@),
        (forall|i: int, j: int| 0 <= i < j < items@.len() ==> #[trigger] items@[i] < #[trigger] items@[j]) ==> forall|a: int, b: int|
            0 <= a < b < res@.len() && keys_le(k1@, k2@, k3@, #[trigger] res@[b], #[trigger] res@[a]) ==> res@[a] < res@[b],
{
    broadcast use vstd::seq_lib::group_to_multiset_ensures;
    let ghost asc = forall|i: int, j: int| 0 <= i < j < items@.len() ==> #[trigger] items@[i] < #[trigger] items@[j];
    let mut res: Vec<usize> = Vec::new();
    let mut i: usize = 0;
    while i < items.len()
        invariant
            i <= items.len(),
            k2.len() == k1.len(),
            k3.len() == k1.len(),
            forall|t: int| 0 <= t < items@.len() ==> #[trigger] items@[t] < k1.len(),
            res@.to_multiset() == items@.take(i as int).to_multiset(),
            res@.len() == i,
            forall|t: int| 0 <= t < res@.len() ==> #[trigger] res@[t] < k1.len(),
            forall|a: int, b: int| 0 <= a < b < res@.len() ==> keys_le(k1@, k2@, k3@, #[trigger] res@[a], #[trigger] res@[b]),
            res@ == insertion_sorted(k1@, k2@, k3@, items@.take(i as int)),
            asc == forall|i: int, j: int| 0 <= i < j < items@.len() ==> #[trigger] items@[i] < #[trigger] items@[j],
            asc ==> forall|a: int, b: int|
                0 <= a < b < res@.len() && keys_le(k1@, k2@, k3@, #[trigger] res@[b], #[trigger] res@[a]) ==> res@[a] < res@[b],
        decreases items.len() - i,
    {
        let x = items[i];
        let mut p: usize = 0;
        while p < res.len() && keys_le_exec(k1, k2, k3, res[p], x)
            invariant
                p <= res.len(),
                x < k1.len(),
                k2.len() == k1.len(),
                k3.len() == k1.len(),
                forall|t: int| 0 <= t < res@.len() ==> #[trigger] res@[t] < k1.len(),
                forall|q: int| 0 <= q < p ==> keys_le(k1@, k2@, k3@, #[trigger] res@[q], x),
                insert_point(k1@, k2@, k3@, res@, x, p as int) == insert_point(k1@, k2@, k3@, res@, x, 0),
            decreases res.len() - p,
        {
            p += 1;
        }
        let ghost r0 = res@;
        res.insert(p, x);
        proof {
            assert(items@.take(i + 1).drop_last() =~= items@.take(i as int));
            assert(insert_point(k1@, k2@, k3@, r0, x, p as int) == p);
            if asc {
                assert forall|t: int| 0 <= t < r0.len() implies #[trigger] r0[t] < x by {
                    assert(r0.contains(r0[t]));
                    vstd::seq_lib::to_multiset_contains(r0, r0[t]);
                    vstd::seq_lib::to_multiset_contains(items@.take(i as int), r0[t]);
                    assert(items@.take(i as int).contains(r0[t]));
                    let w = choose|w: int| 0 <= w < i && items@.take(i as int)[w] == r0[t];
                    assert(items@[w] < items@[i as int]);
                }
            }
            r0.insert_ensures(p as int, x);
            lemma_insert_multiset(r0, p as int, x);
            assert(items@.take(i + 1) =~= items@.take(i as int).push(x));
            items@.take(i as int).to_multiset_ensures();
            assert(items@.take(i as int).push(x).to_multiset() =~= items@.take(i as int).to_multiset().insert(x));
            assert forall|t: int| 0 <= t < res@.len() implies #[trigger] res@[t] < k1.len() by {
                if t < p {
                    assert(res@[t] == r0[t]);
                } else if t > p {
                    assert(res@[t] == r0[t - 1]);
                }
            }
            assert forall|a: int, b: int| 0 <= a < b < res@.len() implies keys_le(k1@, k2@, k3@, #[trigger] res@[a], #[trigger] res@[b]) by {
                if b < p {
                    assert(res@[a] == r0[a] && res@[b] == r0[b]);
                } else if b == p {
                    assert(res@[a] == r0[a]);
                } else if a < p {
                    assert(res@[a] == r0[a] && res@[b] == r0[b - 1]);
                } else if a == p {
                    assert(res@[b] == r0[b - 1]);
                    assert(p < r0.len());
                    assert(!keys_le(k1@, k2@, k3@, r0[p as int], x));
                    if b - 1 > p {
                        assert(keys_le(k1@, k2@, k3@, r0[p as int], r0[b - 1]));
                    }
                } else {
                    assert(res@[a] == r0[a - 1] && res@[b] == r0[b - 1]);
                }
            }
            if asc {
                assert forall|a: int, b: int|
                    0 <= a < b < res@.len() && keys_le(k1@, k2@, k3@, #[trigger] res@[b], #[trigger] res@[a]) implies res@[a] < res@[b] by {
                    if b < p {
                        assert(res@[a] == r0[a] && res@[b] == r0[b]);
                    } else if b == p {
                        assert(res@[a] == r0[a]);
                    } else if a < p {
                        assert(res@[a] == r0[a] && res@[b] == r0[b - 1]);
                    } else if a == p {
                        assert(res@[b] == r0[b - 1]);
                        assert(p < r0.len());
                        assert(!keys_le(k1@, k2@, k3@, r0[p as int], x));
                        if b - 1 > p {
                            assert(keys_le(k1@, k2@, k3@, r0[p as int], r0[b - 1]));
                        }
                        assert(false);
                    } else {
                        assert(res@[a] == r0[a - 1] && res@[b] == r0[b - 1]);
                    }
                }
            }
        }
        i += 1;
    }
    proof {
        assert(items@.take(items.len() as int) =~= items@);
    }
    res
}


/// Every entry of every bucket is below `m`.
pub open spec fn buckets_below(buckets: Seq<Seq<usize>>, m: int) -> bool {
    forall|r: int, k: int| 0 <= r < buckets.len() && 0 <= k < buckets[r].len() ==> #[trigger] buckets[r][k] < m
}

/// Position of the last occurrence of `x` in `s`, if any.
pub open spec fn found_at(s: Seq<usize>, x: usize) -> Option<usize>
    decreases s.len(),
{
    if s.len() == 0 {
        None
    } else if s.last() == x {
        Some((s.len() - 1) as usize)
    } else {
        found_at(s.drop_last(), x)
    }
}

/// Position of `x` inside the last bucket of `bs` that holds it (its last
/// occurrence there), if any bucket does.
pub open spec fn rank_position(bs: Seq<Seq<usize>>, x: usize) -> Option<usize>
    decreases bs.len(),
{
    if bs.len() == 0 {
        None
    } else {
        match found_at(bs.last(), x) {
            Some(i) => Some(i),
            None => rank_position(bs.drop_last(), x),
        }
    }
}

/// `rank_position` for each node below `m`.
pub open spec fn rank_positions(bs: Seq<Seq<usize>>, m: nat) -> Seq<Option<usize>> {
    Seq::new(m, |x: int| rank_position(bs, x as usize))
}

/// The positions of those entries of `l` that have one, in order.
pub open spec fn placed_positions(pos: Seq<Option<usize>>, l: Seq<usize>) -> Seq<usize>
    decreases l.len(),
{
    if l.len() == 0 {
        Seq::empty()
    } else {
        let r = placed_positions(pos, l.drop_last());
        match pos[l.last() as int] {
            Some(p) => r.push(p),
            None => r,
        }
    }
}

/// `placed_positions` of each node's neighbour list.
pub open spec fn neighbour_positions_of(nbr: Seq<Seq<usize>>, pos: Seq<Option<usize>>) -> Seq<Seq<usize>> {
    Seq::new(nbr.len(), |x: int| placed_positions(pos, nbr[x]))
}

/// For each node, its index inside the last bucket that holds it (its last
/// occurrence there), if any bucket does.
fn node_positions(buckets: &Vec<Vec<usize>>, m: usize) -> (pos: Vec<Option<usize>>)
    requires
        buckets_below(buckets.deep_view(), m as int),
    ensures
        pos@ == rank_positions(buckets.deep_view(), m as nat),
{
    let ghost bs = buckets.deep_view();
    let mut pos: Vec<Option<usize>> = Vec::new();
    let mut x: usize = 0;
    while x < m
        invariant
            x <= m,
            pos.len() == x,
            forall|y: int| 0 <= y < x ==> #[trigger] pos@[y] is None,
        decreases m - x,
    {
        pos.push(None);
        x += 1;
    }
    let mut r: usize = 0;
    while r < buckets.len()
        invariant
            r <= buckets.len(),
            pos.len() == m,
            bs == buckets.deep_view(),
            buckets_below(bs, m as int),
            forall|y: int| 0 <= y < m ==> #[trigger] pos@[y] == rank_position(bs.take(r as int), y as usize),
        decreases buckets.len() - r,
    {
        let ghost row = bs[r as int];
        proof {
            assert(row == buckets@[r as int]@);
        }
        let mut i: usize = 0;
        while i < buckets[r].len()
            invariant
                r < buckets.len(),
                i <= buckets@[r as int]@.len(),
                pos.len() == m,
                bs == buckets.deep_view(),
                row == buckets@[r as int]@,
                buckets_below(bs, m as int),
                forall|y: int| 0 <= y < m ==> #[trigger] pos@[y] == match found_at(row.take(i as int), y as usize) {
                    Some(j) => Some(j),
                    None => rank_position(bs.take(r as int), y as usize),
                },
            decreases buckets@[r as int]@.len() - i,
        {
            proof {
                assert(bs[r as int][i as int] < m);
                assert(row.take(i + 1).drop_last() =~= row.take(i as int));
            }
            pos.set(buckets[r][i], Some(i));
            i += 1;
        }
        proof {
            assert(row.take(row.len() as int) =~= row);
            assert(bs.take(r + 1).drop_last() =~= bs.take(r as int));
            assert(bs.take(r + 1).last() == row);
        }
        r += 1;
    }
    proof {
        assert(bs.take(bs.len() as int) =~= bs);
        assert(pos@ =~= rank_positions(bs, m as nat));
    }
    pos
}

/// For each node, the positions of those of its neighbours that have one,
/// in neighbour order.
fn neighbour_positions(nbr: &Vec<Vec<usize>>, pos: &Vec<Option<usize>>) -> (nbpos: Vec<Vec<usize>>)
    requires
        nbr.len() == pos.len(),
        forall|x: int, k: int| 0 <= x < nbr.len() && 0 <= k < nbr@[x]@.len() ==> #[trigger] nbr@[x]@[k] < pos.len(),
    ensures
        nbpos.len() == nbr.len(),
        forall|x: int| 0 <= x < nbr.len() ==> (#[trigger] nbpos.deep_view()[x]).len() <= nbr@[x]@.len(),
        nbpos.deep_view() == neighbour_positions_of(nbr.deep_view(), pos@),
{
    let mut nbpos: Vec<Vec<usize>> = Vec::new();
    let mut x: usize = 0;
    while x < nbr.len()
        invariant
            x <= nbr.len(),
            nbr.len() == pos.len(),
            forall|y: int, k: int| 0 <= y < nbr.len() && 0 <= k < nbr@[y]@.len() ==> #[trigger] nbr@[y]@[k] < pos.len(),
            nbpos.len() == x,
            forall|y: int| 0 <= y < x ==> (#[trigger] nbpos.deep_view()[y]).len() <= nbr@[y]@.len(),
            forall|y: int| 0 <= y < x ==> #[trigger] nbpos.deep_view()[y] == placed_positions(pos@, nbr@[y]@),
        decreases nbr.len() - x,
    {
        let ghost l = nbr@[x as int]@;
        let mut list: Vec<usize> = Vec::new();
        let mut k: usize = 0;
        while k < nbr[x].len()
            invariant
                x < nbr.len(),
                l == nbr@[x as int]@,
                k <= nbr@[x as int]@.len(),
                list.len() <= k,
                nbr.len() == pos.len(),
                forall|y: int, k2: int| 0 <= y < nbr.len() && 0 <= k2 < nbr@[y]@.len() ==> #[trigger] nbr@[y]@[k2] < pos.len(),
                list@ == placed_positions(pos@, l.take(k as int)),
            decreases nbr@[x as int]@.len() - k,
        {
            proof {
                assert(l.take(k + 1).drop_last() =~= l.take(k as int));
            }
            let y = nbr[x][k];
            match pos[y] {
                Some(p) => list.push(p),
                None => {},
            }
            k += 1;
        }
        proof {
            assert(l.take(l.len() as int) =~= l);
        }
        let ghost nb0 = nbpos.deep_view();
        nbpos.push(list);
        proof {
            assert forall|y: int| 0 <= y < x + 1 implies (#[trigger] nbpos.deep_view()[y]).len() <= nbr@[y]@.len() by {
                if y < x {
                    assert(nbpos.deep_view()[y] == nb0[y]);
                }
            }
            assert forall|y: int| 0 <= y < x + 1 implies #[trigger] nbpos.deep_view()[y] == placed_positions(pos@, nbr@[y]@) by {
                if y < x {
                    assert(nbpos.deep_view()[y] == nb0[y]);
                }
            }
        }
        x += 1;
    }
    proof {
        assert forall|y: int| 0 <= y < nbr.len() implies #[trigger] nbr.deep_view()[y] == nbr@[y]@ by {}
        assert(nbpos.deep_view() =~= neighbour_positions_of(nbr.deep_view(), pos@));
    }
    nbpos
}

/// Position of the last occurrence of `x` in `s`, or 0 when there is none.
pub open spec fn last_position(s: Seq<usize>, x: usize) -> int
    decreases s.len(),
{
    if s.len() == 0 {
        0
    } else if s.last() == x {
        s.len() - 1
    } else {
        last_position(s.drop_last(), x)
    }
}

proof fn lemma_last_position_range(s: Seq<usize>, x: usize)
    ensures
        0 <= last_position(s, x) <= s.len(),
    decreases s.len(),
{
    if s.len() > 0 {
        lemma_last_position_range(s.drop_last(), x);
    }
}

/// For each node, its position in `s` (its last, or 0 when absent).
pub open spec fn position_keys(m: nat, s: Seq<usize>) -> Seq<usize> {
    Seq::new(m, |x: int| last_position(s, x as usize) as usize)
}

/// For each node, twice the median position of its neighbours `nb[x]`, or
/// twice its own position in `s` when it has none.
pub open spec fn median_keys(nb: Seq<Seq<usize>>, s: Seq<usize>) -> Seq<u128> {
    Seq::new(
        nb.len(),
        |x: int|
            if nb[x].len() == 0 {
                (2 * last_position(s, x as usize)) as u128
            } else {
                median_doubled(nb[x]) as u128
            },
    )
}

/// The bucket `s` reordered: sorted by median key, then position, then
/// `ord`, and then passed over with exchanges until none is left to make.
pub open spec fn reordered(nb: Seq<Seq<usize>>, ord: Seq<usize>, s: Seq<usize>) -> Seq<usize> {
    transposed(nb, ord, insertion_sorted(median_keys(nb, s), position_keys(nb.len(), s), ord, s))
}

/// Reorders one bucket: sorted by twice the median position of each node's
/// neighbours (its own last position when none is placed), then by that
/// position, then by `ord`; then neighbouring pairs are exchanged while that
/// removes crossings.
pub fn reorder_bucket(bucket: &mut Vec<usize>, nbpos: &Vec<Vec<usize>>, ord: &Vec<usize>)
    requires
        forall|k: int| 0 <= k < old(bucket)@.len() ==> #[trigger] old(bucket)@[k] < nbpos.len(),
        ord.len() == nbpos.len(),
        products_fit(nbpos.deep_view()),
    ensures
        final(bucket)@.len() == old(bucket)@.len(),
        final(bucket)@.to_multiset() == old(bucket)@.to_multiset(),
        forall|k: int| 0 <= k < final(bucket)@.len() ==> #[trigger] final(bucket)@[k] < nbpos.len(),
        forall|i: int|
            0 <= i < final(bucket)@.len() - 1 ==> !should_swap(
                nbpos.deep_view(),
                ord@,
                #[trigger] final(bucket)@[i],
                final(bucket)@[i + 1],
            ),
        final(bucket)@ == reordered(nbpos.deep_view(), ord@, old(bucket)@),
{
    let ghost b0 = bucket@;
    let ghost nb = nbpos.deep_view();
    let m = nbpos.len();
    let mut cur: Vec<usize> = Vec::new();
    let mut x: usize = 0;
    while x < m
        invariant
            x <= m,
            cur.len() == x,
            forall|y: int| 0 <= y < x ==> #[trigger] cur@[y] == 0,
        decreases m - x,
    {
        cur.push(0);
        x += 1;
    }
    let mut i: usize = 0;
    while i < bucket.len()
        invariant
            i <= bucket.len(),
            cur.len() == m,
            m == nbpos.len(),
            bucket@ == b0,
            forall|k: int| 0 <= k < bucket@.len() ==> #[trigger] bucket@[k] < nbpos.len(),
            forall|y: int| 0 <= y < m ==> #[trigger] cur@[y] == last_position(b0.take(i as int), y as usize),
        decreases bucket.len() - i,
    {
        proof {
            assert(b0.take(i + 1).drop_last() =~= b0.take(i as int));
        }
        cur.set(bucket[i], i);
        i += 1;
    }
    let blen = bucket.len();
    proof {
        assert(b0.take(b0.len() as int) =~= b0);
        assert forall|y: int| 0 <= y < m implies #[trigger] cur@[y] == position_keys(m as nat, b0)[y] by {
            lemma_last_position_range(b0, y as usize);
        }
        assert(cur@ =~= position_keys(m as nat, b0));
    }
    let mut med: Vec<u128> = Vec::new();
    let mut x: usize = 0;
    while x < m
        invariant
            x <= m,
            m == nbpos.len(),
            nb == nbpos.deep_view(),
            cur.len() == m,
            cur@ == position_keys(m as nat, b0),
            b0 == bucket@,
            b0.len() == blen,
            med.len() == x,
            forall|y: int| 0 <= y < x ==> #[trigger] med@[y] == median_keys(nb, b0)[y],
        decreases m - x,
    {
        proof {
            assert(nb[x as int] == nbpos@[x as int]@);
            lemma_last_position_range(b0, x as usize);
        }
        let v = median_position(&nbpos[x], cur[x]);
        proof {
            assert(cur@[x as int] == last_position(b0, x as usize));
            if nb[x as int].len() == 0 {
                assert(v == 2 * last_position(b0, x as usize));
            } else {
                assert(v == median_doubled(nb[x as int]));
            }
            assert(v == median_keys(nb, b0)[x as int]);
        }
        med.push(v);
        x += 1;
    }
    proof {
        assert(med@ =~= median_keys(nb, b0));
    }
    let mut sorted = sort_by_keys(bucket, &med, &cur, ord);
    transpose_bucket(&mut sorted, nbpos, ord);
    *bucket = sorted;
}

/// Rank `r` of `bs` reordered by the neighbour lists `nbr`, with the
/// positions that the nodes have in `bs`; a rank of one node or none stays.
pub open spec fn rank_reordered(bs: Seq<Seq<usize>>, r: int, nbr: Seq<Seq<usize>>, ord: Seq<usize>) -> Seq<Seq<usize>> {
    if bs[r].len() <= 1 {
        bs
    } else {
        bs.update(r, reordered(neighbour_positions_of(nbr, rank_positions(bs, ord.len())), ord, bs[r]))
    }
}

/// Reorders rank `r` by the neighbour lists `nbr`, using the positions the
/// nodes have in all ranks at the start.
fn reorder_rank(buckets: &mut Vec<Vec<usize>>, r: usize, nbr: &Vec<Vec<usize>>, ord: &Vec<usize>)
    requires
        r < old(buckets)@.len(),
        buckets_below(old(buckets).deep_view(), ord.len() as int),
        nbr.len() == ord.len(),
        forall|x: int, k: int| 0 <= x < nbr.len() && 0 <= k < nbr@[x]@.len() ==> #[trigger] nbr@[x]@[k] < ord.len(),
        products_fit(nbr.deep_view()),
    ensures
        final(buckets)@.len() == old(buckets)@.len(),
        buckets_below(final(buckets).deep_view(), ord.len() as int),
        forall|q: int|
            0 <= q < final(buckets)@.len() ==> (#[trigger] final(buckets)@[q])@.to_multiset() == old(
                buckets,
            )@[q]@.to_multiset(),
        final(buckets).deep_view() == rank_reordered(old(buckets).deep_view(), r as int, nbr.deep_view(), ord@),
{
    let m = ord.len();
    if buckets[r].len() <= 1 {
        return ;
    }
    let pos = node_positions(buckets, m);
    let nbpos = neighbour_positions(nbr, &pos);
    proof {
        assert forall|x: int, y: int|
            0 <= x < nbpos.deep_view().len() && 0 <= y < nbpos.deep_view().len() implies #[trigger] nbpos.deep_view()[x].len()
                * #[trigger] nbpos.deep_view()[y].len() <= usize::MAX by {
            let a = nbpos.deep_view()[x].len();
            let b = nbpos.deep_view()[y].len();
            let a0 = nbr.deep_view()[x].len();
            let b0 = nbr.deep_view()[y].len();
            assert(nbr.deep_view()[x] == nbr@[x]@ && nbr.deep_view()[y] == nbr@[y]@);
            assert(a <= a0 && b <= b0);
            assert(a0 * b0 <= usize::MAX);
            assert(a * b <= a0 * b0) by (nonlinear_arith)
                requires a <= a0, b <= b0;
        }
    }
    let mut bucket: Vec<usize> = Vec::new();
    let ghost bs = buckets@;
    let ghost bdv = buckets.deep_view();
    std::mem::swap(&mut bucket, &mut buckets[r]);
    proof {
        assert(bucket@ == bs[r as int]@);
        assert forall|k: int| 0 <= k < bucket@.len() implies #[trigger] bucket@[k] < nbpos.len() by {
            assert(bdv[r as int][k] == bucket@[k]);
        }
    }
    reorder_bucket(&mut bucket, &nbpos, ord);
    let ghost nb = bucket@;
    std::mem::swap(&mut bucket, &mut buckets[r]);
    proof {
        assert(buckets@[r as int]@ == nb);
        assert forall|q: int| 0 <= q < bs.len() && q != r implies #[trigger] buckets@[q] == bs[q] by {}
        assert forall|q: int, k: int|
            0 <= q < buckets.deep_view().len() && 0 <= k < buckets.deep_view()[q].len() implies #[trigger] buckets.deep_view()[q][k]
                < m by {
            if q != r {
                assert(buckets.deep_view()[q] == bdv[q]);
            } else {
                assert(buckets.deep_view()[q] == nb);
            }
        }
        assert(bdv[r as int] == bs[r as int]@);
        assert forall|q: int| 0 <= q < bs.len() implies #[trigger] buckets.deep_view()[q] == bdv.update(r as int, nb)[q] by {
            if q != r {
                assert(buckets.deep_view()[q] == bdv[q]);
            }
        }
        assert(buckets.deep_view() =~= bdv.update(r as int, nb));
    }
}

/// Ranks `r..n` of `bs` reordered one after the other by their incoming
/// neighbours `inc`.
pub open spec fn down_sweep(bs: Seq<Seq<usize>>, r: int, n: int, inc: Seq<Seq<usize>>, ord: Seq<usize>) -> Seq<Seq<usize>>
    decreases n - r,
{
    if r < 0 || r >= n {
        bs
    } else {
        down_sweep(rank_reordered(bs, r, inc, ord), r + 1, n, inc, ord)
    }
}

/// Ranks `r - 1` down to `0` of `bs` reordered one after the other by their
/// outgoing neighbours `out`.
pub open spec fn up_sweep(bs: Seq<Seq<usize>>, r: int, out: Seq<Seq<usize>>, ord: Seq<usize>) -> Seq<Seq<usize>>
    decreases r,
{
    if r <= 0 {
        bs
    } else {
        up_sweep(rank_reordered(bs, r - 1, out, ord), r - 1, out, ord)
    }
}

/// One pass: a sweep down from the second rank, then a sweep up from the
/// second-to-last rank.
pub open spec fn ordering_pass(bs: Seq<Seq<usize>>, inc: Seq<Seq<usize>>, out: Seq<Seq<usize>>, ord: Seq<usize>) -> Seq<Seq<usize>> {
    up_sweep(down_sweep(bs, 1, bs.len() as int, inc, ord), bs.len() - 1, out, ord)
}

proof fn lemma_down_sweep_keeps_first(bs: Seq<Seq<usize>>, r: int, n: int, inc: Seq<Seq<usize>>, ord: Seq<usize>)
    requires
        1 <= r,
        n <= bs.len(),
    ensures
        down_sweep(bs, r, n, inc, ord).len() == bs.len(),
        down_sweep(bs, r, n, inc, ord)[0] == bs[0],
    decreases n - r,
{
    if r < n {
        let next = rank_reordered(bs, r, inc, ord);
        assert(next.len() == bs.len() && next[0] == bs[0]);
        lemma_down_sweep_keeps_first(next, r + 1, n, inc, ord);
    }
}

proof fn lemma_up_sweep_ends_first(x: Seq<Seq<usize>>, r: int, out: Seq<Seq<usize>>, ord: Seq<usize>)
    requires
        1 <= r <= x.len(),
    ensures
        up_sweep(x, r, out, ord).len() == x.len(),
        up_sweep(x, r, out, ord) == rank_reordered(up_sweep(x, r, out, ord).update(0, x[0]), 0, out, ord),
    decreases r,
{
    let y = rank_reordered(x, r - 1, out, ord);
    if r == 1 {
        assert(up_sweep(y, 0, out, ord) == y);
        assert(y.update(0, x[0]) =~= x);
    } else {
        assert(y.len() == x.len() && y[0] == x[0]);
        lemma_up_sweep_ends_first(y, r - 1, out, ord);
    }
}

/// Each pass ends by reordering the first rank by its outgoing neighbours:
/// with two ranks or more, the result of a pass is what reordering the first
/// rank, as it was given, by the positions of its successors in the result
/// gives; every other rank is as in the result. With exactly two ranks, the
/// second rank of the result is the given one reordered by its incoming
/// neighbours at their given positions.
pub proof fn lemma_pass_reorders_first_rank(bs: Seq<Seq<usize>>, inc: Seq<Seq<usize>>, out: Seq<Seq<usize>>, ord: Seq<usize>)
    requires
        bs.len() >= 2,
    ensures
        ordering_pass(bs, inc, out, ord).len() == bs.len(),
        ordering_pass(bs, inc, out, ord) == rank_reordered(
            ordering_pass(bs, inc, out, ord).update(0, bs[0]),
            0,
            out,
            ord,
        ),
        bs.len() == 2 ==> ordering_pass(bs, inc, out, ord)[1] == rank_reordered(bs, 1, inc, ord)[1],
{
    let x = down_sweep(bs, 1, bs.len() as int, inc, ord);
    lemma_down_sweep_keeps_first(bs, 1, bs.len() as int, inc, ord);
    lemma_up_sweep_ends_first(x, bs.len() - 1, out, ord);
    if bs.len() == 2 {
        let y = rank_reordered(bs, 1, inc, ord);
        assert(down_sweep(y, 2, 2, inc, ord) == y);
        assert(x == y);
        assert(up_sweep(rank_reordered(x, 0, out, ord), 0, out, ord) == rank_reordered(x, 0, out, ord));
        assert(rank_reordered(x, 0, out, ord)[1] == x[1]);
    }
}

/// `p` passes, one after the other.
pub open spec fn ordering_passes(
    bs: Seq<Seq<usize>>,
    inc: Seq<Seq<usize>>,
    out: Seq<Seq<usize>>,
    ord: Seq<usize>,
    p: nat,
) -> Seq<Seq<usize>>
    decreases p,
{
    if p == 0 {
        bs
    } else {
        ordering_passes(ordering_pass(bs, inc, out, ord), inc, out, ord, (p - 1) as nat)
    }
}

/// Orders the nodes within ranks: `passes` times (at least once) a sweep
/// down the ranks reorders each rank by its incoming neighbours `inc`, then a
/// sweep up reorders each rank by its outgoing neighbours `out`, positions
/// being updated after every rank. Ranks of one node or none are left
/// alone. Every rank keeps its nodes, each as often as before.
pub fn order_buckets(
    buckets: &mut Vec<Vec<usize>>,
    inc: &Vec<Vec<usize>>,
    out: &Vec<Vec<usize>>,
    ord: &Vec<usize>,
    passes: usize,
)
    requires
        buckets_below(old(buckets).deep_view(), ord.len() as int),
        inc.len() == ord.len(),
        out.len() == ord.len(),
        forall|x: int, k: int| 0 <= x < inc.len() && 0 <= k < inc@[x]@.len() ==> #[trigger] inc@[x]@[k] < ord.len(),
        forall|x: int, k: int| 0 <= x < out.len() && 0 <= k < out@[x]@.len() ==> #[trigger] out@[x]@[k] < ord.len(),
        products_fit(inc.deep_view()),
        products_fit(out.deep_view()),
    ensures
        final(buckets)@.len() == old(buckets)@.len(),
        buckets_below(final(buckets).deep_view(), ord.len() as int),
        forall|r: int|
            0 <= r < final(buckets)@.len() ==> (#[trigger] final(buckets)@[r])@.to_multiset() == old(
                buckets,
            )@[r]@.to_multiset(),
        old(buckets)@.len() <= 1 ==> final(buckets)@ == old(buckets)@,
        old(buckets)@.len() > 1 ==> final(buckets).deep_view() == ordering_passes(
            old(buckets).deep_view(),
            inc.deep_view(),
            out.deep_view(),
            ord@,
            (if passes < 1 {
                1
            } else {
                passes
            }) as nat,
        ),
{
    let ghost b0 = buckets@;
    let ghost d0 = buckets.deep_view();
    let len = buckets.len();
    if len <= 1 {
        return ;
    }
    let passes = if passes < 1 {
        1
    } else {
        passes
    };
    let mut pass: usize = 0;
    while pass < passes
        invariant
            pass <= passes,
            buckets@.len() == len,
            len >= 2,
            inc.len() == ord.len(),
            out.len() == ord.len(),
            buckets_below(buckets.deep_view(), ord.len() as int),
            forall|x: int, k: int| 0 <= x < inc.len() && 0 <= k < inc@[x]@.len() ==> #[trigger] inc@[x]@[k] < ord.len(),
            forall|x: int, k: int| 0 <= x < out.len() && 0 <= k < out@[x]@.len() ==> #[trigger] out@[x]@[k] < ord.len(),
            products_fit(inc.deep_view()),
            products_fit(out.deep_view()),
            forall|r: int| 0 <= r < len ==> (#[trigger] buckets@[r])@.to_multiset() == b0[r]@.to_multiset(),
            ordering_passes(d0, inc.deep_view(), out.deep_view(), ord@, passes as nat) == ordering_passes(
                buckets.deep_view(),
                inc.deep_view(),
                out.deep_view(),
                ord@,
                (passes - pass) as nat,
            ),
        decreases passes - pass,
    {
        let ghost start = buckets.deep_view();
        let mut r: usize = 1;
        while r < len
            invariant
                1 <= r <= len,
                buckets@.len() == len,
                inc.len() == ord.len(),
                buckets_below(buckets.deep_view(), ord.len() as int),
                forall|x: int, k: int| 0 <= x < inc.len() && 0 <= k < inc@[x]@.len() ==> #[trigger] inc@[x]@[k] < ord.len(),
                products_fit(inc.deep_view()),
                forall|q: int| 0 <= q < len ==> (#[trigger] buckets@[q])@.to_multiset() == b0[q]@.to_multiset(),
                start.len() == len,
                down_sweep(start, 1, len as int, inc.deep_view(), ord@) == down_sweep(
                    buckets.deep_view(),
                    r as int,
                    len as int,
                    inc.deep_view(),
                    ord@,
                ),
            decreases len - r,
        {
            reorder_rank(buckets, r, inc, ord);
            r += 1;
        }
        let ghost mid = buckets.deep_view();
        let mut r: usize = len - 1;
        while r > 0
            invariant
                r <= len - 1,
                buckets@.len() == len,
                out.len() == ord.len(),
                buckets_below(buckets.deep_view(), ord.len() as int),
                forall|x: int, k: int| 0 <= x < out.len() && 0 <= k < out@[x]@.len() ==> #[trigger] out@[x]@[k] < ord.len(),
                products_fit(out.deep_view()),
                forall|q: int| 0 <= q < len ==> (#[trigger] buckets@[q])@.to_multiset() == b0[q]@.to_multiset(),
                up_sweep(mid, len - 1, out.deep_view(), ord@) == up_sweep(buckets.deep_view(), r as int, out.deep_view(), ord@),
            decreases r,
        {
            reorder_rank(buckets, r - 1, out, ord);
            r -= 1;
        }
        proof {
            assert(buckets.deep_view() == ordering_pass(start, inc.deep_view(), out.deep_view(), ord@));
            assert(ordering_passes(start, inc.deep_view(), out.deep_view(), ord@, (passes - pass) as nat)
                == ordering_passes(buckets.deep_view(), inc.deep_view(), out.deep_view(), ord@, (passes - (pass + 1)) as nat));
        }
        pass += 1;
    }
}

} // verus!
