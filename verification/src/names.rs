//! Node names: equality and order of names by their characters, and the
//! numbering of distinct names.
use vstd::prelude::*;

verus! {

/// The characters of `s`.
pub fn chars_of(s: &str) -> (v: Vec<char>)
    ensures
        v@ == s@,
{
    let mut v: Vec<char> = Vec::new();
    for ch in it: s.chars()
        invariant
            v@ == it.seq().take(it.index() as int),
    {
        v.push(ch);
    }
    v
}

/// `a` comes before `b` in lexicographic order of characters (the order of
/// `String`: UTF-8 bytes compare as their code points do).
pub open spec fn lex_less(a: Seq<char>, b: Seq<char>) -> bool
    decreases a.len(),
{
    if a.len() == 0 {
        b.len() > 0
    } else if b.len() == 0 {
        false
    } else if a[0] != b[0] {
        a[0] < b[0]
    } else {
        lex_less(a.skip(1), b.skip(1))
    }
}

/// Lexicographic order is transitive.
pub proof fn lemma_lex_trans(a: Seq<char>, b: Seq<char>, c: Seq<char>)
    requires
        lex_less(a, b),
        lex_less(b, c),
    ensures
        lex_less(a, c),
    decreases a.len(),
{
    if a.len() > 0 && b.len() > 0 && c.len() > 0 && a[0] == b[0] && b[0] == c[0] {
        lemma_lex_trans(a.skip(1), b.skip(1), c.skip(1));
    }
}

/// Whether `a` sorts before `b`.
pub fn str_less(a: &str, b: &str) -> (res: bool)
    ensures
        res == lex_less(a@, b@),
{
    let ac = chars_of(a);
    let bc = chars_of(b);
    let mut i: usize = 0;
    proof {
        assert(ac@.skip(0) =~= ac@);
        assert(bc@.skip(0) =~= bc@);
    }
    while i < ac.len() && i < bc.len() && ac[i] == bc[i]
        invariant
            i <= ac@.len(),
            i <= bc@.len(),
            lex_less(ac@, bc@) == lex_less(ac@.skip(i as int), bc@.skip(i as int)),
        decreases ac@.len() - i,
    {
        proof {
            let x = ac@.skip(i as int);
            let y = bc@.skip(i as int);
            assert(x.skip(1) =~= ac@.skip(i + 1));
            assert(y.skip(1) =~= bc@.skip(i + 1));
            assert(x[0] == ac@[i as int]);
            assert(y[0] == bc@[i as int]);
        }
        i += 1;
    }
    proof {
        let x = ac@.skip(i as int);
        let y = bc@.skip(i as int);
        if i < ac.len() {
            assert(x[0] == ac@[i as int]);
        }
        if i < bc.len() {
            assert(y[0] == bc@[i as int]);
        }
    }
    if i == ac.len() {
        i < bc.len()
    } else if i == bc.len() {
        false
    } else {
        ac[i] < bc[i]
    }
}

/// Position of the first entry of `names` spelled like `s`.
pub fn find_name(names: &Vec<String>, s: &String) -> (res: Option<usize>)
    ensures
        res matches Some(i) ==> i < names.len() && names@[i as int]@ == s@ && forall|j: int|
            0 <= j < i ==> (#[trigger] names@[j])@ != s@,
        res is None ==> forall|j: int| 0 <= j < names.len() ==> (#[trigger] names@[j])@ != s@,
{
    let mut i: usize = 0;
    while i < names.len()
        invariant
            i <= names.len(),
            forall|j: int| 0 <= j < i ==> (#[trigger] names@[j])@ != s@,
        decreases names.len() - i,
    {
        if names[i] == *s {
            return Some(i);
        }
        i += 1;
    }
    None
}

/// Some entry of `ids` before position `upto` is spelled `s`.
pub open spec fn spelled_in(ids: Seq<String>, s: Seq<char>, upto: int) -> bool {
    exists|k: int| 0 <= k < upto && ids[k]@ == s
}

/// The spellings of `s`.
pub open spec fn spellings(s: Seq<String>) -> Seq<Seq<char>> {
    s.map_values(|x: String| x@)
}

/// The distinct spellings among `ids`, in order of first appearance, and
/// for each entry of `ids` the number of its spelling.
pub fn number_names(ids: &Vec<String>) -> (res: (Vec<String>, Vec<usize>))
    ensures
        spellings(res.0@).no_duplicates(),
        res.1.len() == ids.len(),
        forall|i: int| 0 <= i < ids.len() ==> #[trigger] res.1@[i] < res.0.len() && res.0@[res.1@[i] as int]@ == ids@[i]@,
        forall|t: int| 0 <= t < res.0.len() ==> #[trigger] spelled_in(ids@, res.0@[t]@, ids.len() as int),
{
    let mut names: Vec<String> = Vec::new();
    let mut index: Vec<usize> = Vec::new();
    let mut i: usize = 0;
    while i < ids.len()
        invariant
            i <= ids.len(),
            index.len() == i,
            spellings(names@).no_duplicates(),
            forall|k: int| 0 <= k < i ==> #[trigger] index@[k] < names.len() && names@[index@[k] as int]@ == ids@[k]@,
            forall|t: int| 0 <= t < names.len() ==> #[trigger] spelled_in(ids@, names@[t]@, i as int),
        decreases ids.len() - i,
    {
        let found = find_name(&names, &ids[i]);
        match found {
            Some(t) => {
                index.push(t);
                proof {
                    assert forall|t2: int| 0 <= t2 < names.len() implies #[trigger] spelled_in(ids@, names@[t2]@, i + 1) by {
                        assert(spelled_in(ids@, names@[t2]@, i as int));
                        let k = choose|k: int| 0 <= k < i && ids@[k]@ == names@[t2]@;
                    }
                }
            },
            None => {
                let ghost n0 = names@;
                index.push(names.len());
                names.push(ids[i].clone());
                proof {
                    assert(spellings(names@) =~= spellings(n0).push(ids@[i as int]@));
                    assert forall|a: int, b: int| 0 <= a < b < names.len() implies spellings(names@)[a] != spellings(names@)[b] by {
                        if b == n0.len() {
                            assert(n0[a]@ != ids@[i as int]@);
                        } else {
                            assert(spellings(n0)[a] != spellings(n0)[b]);
                        }
                    }
                    assert forall|t: int| 0 <= t < names.len() implies #[trigger] spelled_in(ids@, names@[t]@, i + 1) by {
                        if t < n0.len() {
                            assert(names@[t] == n0[t]);
                            assert(spelled_in(ids@, n0[t]@, i as int));
                            let k = choose|k: int| 0 <= k < i && ids@[k]@ == n0[t]@;
                        } else {
                            assert(names@[t]@ == ids@[i as int]@);
                        }
                    }
                }
            },
        }
        i += 1;
    }
    (names, index)
}


/// `names` with `s` added at the end, unless it is already there.
pub open spec fn add_name(names: Seq<Seq<char>>, s: Seq<char>) -> Seq<Seq<char>> {
    if names.contains(s) {
        names
    } else {
        names.push(s)
    }
}

/// Number of the name spelled like `s` in `names`, adding it at the end
/// when no name is spelled so.
pub fn intern(names: &mut Vec<String>, s: &String) -> (idx: usize)
    requires
        spellings(old(names)@).no_duplicates(),
    ensures
        spellings(final(names)@).no_duplicates(),
        idx < final(names)@.len(),
        final(names)@[idx as int]@ == s@,
        final(names)@.len() >= old(names)@.len(),
        final(names)@.subrange(0, old(names)@.len() as int) == old(names)@,
        spellings(final(names)@) == add_name(spellings(old(names)@), s@),
{
    match find_name(names, s) {
        Some(i) => {
            proof {
                assert(spellings(names@)[i as int] == s@);
            }
            i
        },
        None => {
            let ghost n0 = names@;
            names.push(s.clone());
            proof {
                assert(!spellings(n0).contains(s@)) by {
                    if spellings(n0).contains(s@) {
                        let j = choose|j: int| 0 <= j < spellings(n0).len() && spellings(n0)[j] == s@;
                        assert(n0[j]@ != s@);
                    }
                }
                assert(names@.subrange(0, n0.len() as int) =~= n0);
                assert(spellings(names@) =~= spellings(n0).push(s@));
                assert forall|a: int, b: int| 0 <= a < b < names@.len() implies spellings(names@)[a] != spellings(names@)[b] by {
                    if b == n0.len() {
                        assert(n0[a]@ != s@);
                    } else {
                        assert(spellings(n0)[a] != spellings(n0)[b]);
                    }
                }
            }
            names.len() - 1
        },
    }
}

/// Mapping equal multisets entrywise gives equal multisets.
pub proof fn lemma_multiset_map(a: Seq<usize>, b: Seq<usize>, f: spec_fn(usize) -> Seq<char>)
    requires
        a.to_multiset() == b.to_multiset(),
    ensures
        a.map_values(f).to_multiset() == b.map_values(f).to_multiset(),
    decreases a.len(),
{
    broadcast use vstd::seq_lib::group_to_multiset_ensures;
    broadcast use vstd::multiset::group_multiset_axioms;
    a.to_multiset_ensures();
    b.to_multiset_ensures();
    if a.len() == 0 {
        assert(b.to_multiset().len() == a.to_multiset().len());
        assert(b.len() == 0);
        assert(a.map_values(f) =~= Seq::<Seq<char>>::empty());
        assert(b.map_values(f) =~= Seq::<Seq<char>>::empty());
    } else {
        let x = a.last();
        assert(a.to_multiset().count(x) > 0) by {
            assert(a.contains(x)) by {
                assert(a[a.len() - 1] == x);
            }
        }
        assert(b.contains(x));
        let j = choose|j: int| 0 <= j < b.len() && b[j] == x;
        let a2 = a.drop_last();
        let b2 = b.remove(j);
        assert(a =~= a2.push(x));
        assert(a2.push(x).to_multiset() =~= a2.to_multiset().insert(x));
        assert(b2.to_multiset() =~= b.to_multiset().remove(x));
        assert(a2.to_multiset() =~= a.to_multiset().remove(x));
        lemma_multiset_map(a2, b2, f);
        let am = a.map_values(f);
        let bm = b.map_values(f);
        assert(am =~= a2.map_values(f).push(f(x)));
        assert(bm.remove(j) =~= b2.map_values(f));
        assert(bm[j] == f(x));
        assert(bm.remove(j).to_multiset() =~= bm.to_multiset().remove(f(x)));
        assert(a2.map_values(f).push(f(x)).to_multiset() =~= a2.map_values(f).to_multiset().insert(f(x)));
        assert(bm.contains(f(x)));
        assert(bm.to_multiset().count(f(x)) > 0);
        assert(bm.to_multiset() =~= bm.to_multiset().remove(f(x)).insert(f(x)));
    }
}

} // verus!
