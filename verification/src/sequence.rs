//! The bookkeeping of a sequence diagram's layout: which participants get a
//! lane and in what order, which notes come before which message, and how
//! activation bars nest on each participant's lifeline.
use vstd::prelude::*;
use crate::names::{find_name, spellings};
use crate::ordering::{keys_le, sort_by_keys};

verus! {

/// `acc` followed by the entries of `ids` that are not yet present, in
/// order.
pub open spec fn with_missing(acc: Seq<Seq<char>>, ids: Seq<Seq<char>>) -> Seq<Seq<char>>
    decreases ids.len(),
{
    if ids.len() == 0 {
        acc
    } else {
        let a = with_missing(acc, ids.drop_last());
        if a.contains(ids.last()) {
            a
        } else {
            a.push(ids.last())
        }
    }
}

/// The participants that get a lane, in order: the declared ones, then
/// every other node in the order given.
pub fn sequence_participants(declared: &Vec<String>, node_ids: &Vec<String>) -> (participants: Vec<String>)
    ensures
        spellings(participants@) == with_missing(spellings(declared@), spellings(node_ids@)),
{
    let mut participants: Vec<String> = Vec::new();
    let mut i: usize = 0;
    while i < declared.len()
        invariant
            i <= declared.len(),
            participants.len() == i,
            spellings(participants@) == spellings(declared@).take(i as int),
        decreases declared.len() - i,
    {
        let ghost p0 = participants@;
        let name = declared[i].clone();
        participants.push(name);
        i += 1;
        proof {
            assert forall|t: int| 0 <= t < i implies #[trigger] spellings(participants@)[t] == spellings(declared@).take(i as int)[t] by {
                if t < i - 1 {
                    assert(participants@[t] == p0[t]);
                    assert(spellings(p0)[t] == spellings(declared@).take(i - 1)[t]);
                } else {
                    assert(participants@[t] == name);
                }
            }
            assert(spellings(participants@) =~= spellings(declared@).take(i as int));
        }
    }
    proof {
        assert(spellings(declared@).take(declared.len() as int) =~= spellings(declared@));
    }
    let mut j: usize = 0;
    while j < node_ids.len()
        invariant
            j <= node_ids.len(),
            spellings(participants@) == with_missing(spellings(declared@), spellings(node_ids@).take(j as int)),
        decreases node_ids.len() - j,
    {
        let ghost before = spellings(participants@);
        let found = find_name(&participants, &node_ids[j]);
        proof {
            assert(spellings(node_ids@).take(j as int + 1).drop_last() =~= spellings(node_ids@).take(j as int));
            match found {
                Some(t) => {
                    assert(before[t as int] == node_ids@[j as int]@);
                },
                None => {
                    assert forall|t: int| 0 <= t < before.len() implies before[t] != node_ids@[j as int]@ by {
                        assert(before[t] == participants@[t]@);
                    }
                },
            }
        }
        if found.is_none() {
            participants.push(node_ids[j].clone());
            proof {
                assert(spellings(participants@) =~= before.push(node_ids@[j as int]@));
            }
        }
        j += 1;
    }
    proof {
        assert(spellings(node_ids@).take(node_ids.len() as int) =~= spellings(node_ids@));
    }
    participants
}

/// The lanes are the declared participants first, then the other nodes;
/// every declared participant and every node gets a lane, nothing else
/// does, and no lane repeats when no declared participant does.
pub proof fn lemma_participant_lanes(acc: Seq<Seq<char>>, ids: Seq<Seq<char>>)
    ensures
        with_missing(acc, ids).len() >= acc.len(),
        with_missing(acc, ids).take(acc.len() as int) == acc,
        forall|k: int| 0 <= k < ids.len() ==> with_missing(acc, ids).contains(#[trigger] ids[k]),
        forall|x: Seq<char>| #[trigger] with_missing(acc, ids).contains(x) ==> acc.contains(x) || ids.contains(x),
        acc.no_duplicates() ==> with_missing(acc, ids).no_duplicates(),
    decreases ids.len(),
{
    if ids.len() > 0 {
        let rest = ids.drop_last();
        lemma_participant_lanes(acc, rest);
        let a = with_missing(acc, rest);
        assert forall|k: int| 0 <= k < ids.len() implies with_missing(acc, ids).contains(#[trigger] ids[k]) by {
            if k < ids.len() - 1 {
                assert(rest[k] == ids[k]);
                assert(a.contains(rest[k]));
                if !a.contains(ids.last()) {
                    let t = choose|t: int| 0 <= t < a.len() && a[t] == ids[k];
                    assert(a.push(ids.last())[t] == ids[k]);
                }
            } else if !a.contains(ids.last()) {
                assert(a.push(ids.last())[a.len() as int] == ids.last());
            }
        }
        assert forall|x: Seq<char>| #[trigger] with_missing(acc, ids).contains(x) implies acc.contains(x) || ids.contains(x) by {
            if a.contains(x) {
                if !acc.contains(x) {
                    let k = choose|k: int| 0 <= k < rest.len() && rest[k] == x;
                    assert(ids[k] == x);
                }
            } else {
                assert(x == ids.last());
                assert(ids[ids.len() - 1] == x);
            }
        }
        if !a.contains(ids.last()) {
            assert(a.push(ids.last()).take(acc.len() as int) =~= a.take(acc.len() as int));
        }
    }
}

/// Where each note goes: before message `index`, or after the last
/// message when `index` is past it.
pub open spec fn note_slot(index: usize, message_count: usize) -> int {
    if index < message_count {
        index as int
    } else {
        message_count as int
    }
}

/// The positions, among the first `upto` notes, of the notes in slot `b`.
pub open spec fn notes_in_slot(note_indices: Seq<usize>, message_count: usize, b: int, upto: int) -> Seq<usize>
    decreases upto,
{
    if upto <= 0 {
        Seq::empty()
    } else {
        let s = notes_in_slot(note_indices, message_count, b, upto - 1);
        if note_slot(note_indices[upto - 1], message_count) == b {
            s.push((upto - 1) as usize)
        } else {
            s
        }
    }
}

/// For each slot before a message (and one after the last), the notes in
/// it, by position among `note_indices` and in their order.
pub fn notes_by_message(note_indices: &Vec<usize>, message_count: usize) -> (slots: Vec<Vec<usize>>)
    requires
        message_count < usize::MAX,
    ensures
        slots.len() == message_count + 1,
        forall|b: int| 0 <= b <= message_count ==> #[trigger] slots@[b]@ == notes_in_slot(
            note_indices@,
            message_count,
            b,
            note_indices.len() as int,
        ),
{
    let mut slots: Vec<Vec<usize>> = Vec::new();
    let mut b: usize = 0;
    while b <= message_count
        invariant
            b <= message_count + 1,
            message_count < usize::MAX,
            slots.len() == b,
            forall|c: int| 0 <= c < b ==> #[trigger] slots@[c]@ == Seq::<usize>::empty(),
        decreases message_count + 1 - b,
    {
        slots.push(Vec::new());
        b += 1;
    }
    let mut k: usize = 0;
    while k < note_indices.len()
        invariant
            k <= note_indices.len(),
            slots.len() == message_count + 1,
            forall|c: int| 0 <= c <= message_count ==> #[trigger] slots@[c]@ == notes_in_slot(
                note_indices@,
                message_count,
                c,
                k as int,
            ),
        decreases note_indices.len() - k,
    {
        let slot = if note_indices[k] < message_count {
            note_indices[k]
        } else {
            message_count
        };
        let ghost s0 = slots@;
        let mut bucket = slots[slot].clone();
        bucket.push(k);
        slots.set(slot, bucket);
        proof {
            assert forall|c: int| 0 <= c <= message_count implies #[trigger] slots@[c]@ == notes_in_slot(
                note_indices@,
                message_count,
                c,
                k + 1,
            ) by {
                if c != slot {
                    assert(slots@[c] == s0[c]);
                }
            }
        }
        k += 1;
    }
    slots
}


/// An activation (or, when `activate` is false, a deactivation) of
/// `participant`'s lifeline at message `index`.
#[derive(Debug, Clone, PartialEq, Eq)]
pub struct ActivationEvent {
    pub index: usize,
    pub participant: String,
    pub activate: bool,
}

/// An activation bar on `participant`'s lifeline from message `start` to
/// message `end` (to the end of the diagram when `None`), drawn `depth`
/// bars deep.
#[derive(Debug, Clone, PartialEq, Eq)]
pub struct ActivationSpan {
    pub participant: String,
    pub start: usize,
    pub end: Option<usize>,
    pub depth: usize,
}

pub open spec fn span_view(s: ActivationSpan) -> (Seq<char>, usize, Option<usize>, usize) {
    (s.participant@, s.start, s.end, s.depth)
}

pub open spec fn spans_view(spans: Seq<ActivationSpan>) -> Seq<(Seq<char>, usize, Option<usize>, usize)> {
    spans.map_values(|s: ActivationSpan| span_view(s))
}

/// The open activations of `p` after the events `evs`, by starting
/// message, the innermost last: an activation opens one more, a
/// deactivation closes the innermost (if any).
pub open spec fn stack_after(evs: Seq<ActivationEvent>, p: Seq<char>) -> Seq<usize>
    decreases evs.len(),
{
    if evs.len() == 0 {
        Seq::empty()
    } else {
        let s = stack_after(evs.drop_last(), p);
        let e = evs.last();
        if e.participant@ != p {
            s
        } else if e.activate {
            s.push(e.index)
        } else if s.len() > 0 {
            s.drop_last()
        } else {
            s
        }
    }
}

/// The bars closed by the events `evs`, in the order of their closing:
/// each deactivation closes the innermost open activation of its
/// participant, at its depth below the others.
pub open spec fn closed_spans(evs: Seq<ActivationEvent>) -> Seq<(Seq<char>, usize, Option<usize>, usize)>
    decreases evs.len(),
{
    if evs.len() == 0 {
        Seq::empty()
    } else {
        let c = closed_spans(evs.drop_last());
        let e = evs.last();
        let s = stack_after(evs.drop_last(), e.participant@);
        if !e.activate && s.len() > 0 {
            c.push((e.participant@, s.last(), Some(e.index), (s.len() - 1) as usize))
        } else {
            c
        }
    }
}

/// The participants of `evs`, in order of first appearance.
pub open spec fn first_seen(evs: Seq<ActivationEvent>) -> Seq<Seq<char>>
    decreases evs.len(),
{
    if evs.len() == 0 {
        Seq::empty()
    } else {
        let f = first_seen(evs.drop_last());
        if f.contains(evs.last().participant@) {
            f
        } else {
            f.push(evs.last().participant@)
        }
    }
}

/// The bars of participant `p` still open after `evs`, outermost first.
pub open spec fn open_bars(p: Seq<char>, evs: Seq<ActivationEvent>) -> Seq<(Seq<char>, usize, Option<usize>, usize)> {
    let st = stack_after(evs, p);
    Seq::new(st.len(), |k: int| (p, st[k], None::<usize>, k as usize))
}

/// The bars still open after `evs`, participant by participant in the
/// order `ps`.
pub open spec fn open_spans(ps: Seq<Seq<char>>, evs: Seq<ActivationEvent>) -> Seq<(Seq<char>, usize, Option<usize>, usize)>
    decreases ps.len(),
{
    if ps.len() == 0 {
        Seq::empty()
    } else {
        open_spans(ps.drop_last(), evs) + open_bars(ps.last(), evs)
    }
}

/// All the bars of the events `evs` taken in turn: those closed, in the
/// order of closing, then those left open, by participant in order of
/// first appearance and outermost first.
pub open spec fn activation_spans_of(evs: Seq<ActivationEvent>) -> Seq<(Seq<char>, usize, Option<usize>, usize)> {
    closed_spans(evs) + open_spans(first_seen(evs), evs)
}

/// `order` takes every event once, by message index and then in the
/// order given.
pub open spec fn event_order(events: Seq<ActivationEvent>, order: Seq<usize>) -> bool {
    &&& order.len() == events.len()
    &&& order.no_duplicates()
    &&& forall|k: int| 0 <= k < order.len() ==> #[trigger] order[k] < events.len()
    &&& forall|a: int, b: int|
        0 <= a < b < order.len() ==> #[trigger] events[order[a] as int].index < #[trigger] events[order[b] as int].index
            || (events[order[a] as int].index == events[order[b] as int].index && order[a] < order[b])
}

pub open spec fn in_order(events: Seq<ActivationEvent>, order: Seq<usize>) -> Seq<ActivationEvent> {
    order.map_values(|k: usize| events[k as int])
}

/// The order in which the events are taken: by message index, then in the
/// order given.
fn activation_order(events: &Vec<ActivationEvent>) -> (order: Vec<usize>)
    ensures
        event_order(events@, order@),
{
    let m = events.len();
    let mut items: Vec<usize> = Vec::new();
    let mut k1: Vec<u128> = Vec::new();
    let mut k2: Vec<usize> = Vec::new();
    let mut k3: Vec<usize> = Vec::new();
    let mut k: usize = 0;
    while k < m
        invariant
            k <= m,
            m == events.len(),
            items.len() == k,
            k1.len() == k,
            k2.len() == k,
            k3.len() == k,
            forall|j: int| 0 <= j < k ==> #[trigger] items@[j] == j,
            forall|j: int| 0 <= j < k ==> #[trigger] k1@[j] == events@[j].index,
            forall|j: int| 0 <= j < k ==> #[trigger] k2@[j] == j,
            forall|j: int| 0 <= j < k ==> #[trigger] k3@[j] == 0,
        decreases m - k,
    {
        items.push(k);
        k1.push(events[k].index as u128);
        k2.push(k);
        k3.push(0);
        k += 1;
    }
    let order = sort_by_keys(&items, &k1, &k2, &k3);
    proof {
        assert(items@.no_duplicates());
        items@.lemma_multiset_has_no_duplicates();
        assert forall|x: usize| order@.to_multiset().contains(x) implies order@.to_multiset().count(x) == 1 by {
        }
        order@.lemma_multiset_has_no_duplicates_conv();
        assert forall|a: int, b: int|
            0 <= a < b < order@.len() implies #[trigger] events@[order@[a] as int].index < #[trigger] events@[order@[b] as int].index
            || (events@[order@[a] as int].index == events@[order@[b] as int].index && order@[a] < order@[b]) by {
            assert(keys_le(k1@, k2@, k3@, order@[a], order@[b]));
            assert(order@[a] != order@[b]);
        }
    }
    order
}

proof fn lemma_take_step<A>(s: Seq<A>, r: int)
    requires
        0 <= r < s.len(),
    ensures
        s.take(r + 1).drop_last() == s.take(r),
        s.take(r + 1).last() == s[r],
{
    assert(s.take(r + 1).drop_last() =~= s.take(r));
}

/// The activation bars of a sequence diagram's lifelines. Events are taken
/// by message index (then in the order given); on each participant's
/// lifeline an activation opens a bar one deeper than those already open,
/// and a deactivation closes the innermost open one (or does nothing when
/// none is open). Bars are listed as they close, then those left open,
/// participant by participant in order of first appearance, outermost
/// first.
pub fn activation_spans(events: &Vec<ActivationEvent>) -> (spans: Vec<ActivationSpan>)
    ensures
        exists|order: Seq<usize>|
            #[trigger] event_order(events@, order) && spans_view(spans@) == activation_spans_of(
                in_order(events@, order),
            ),
{
    let order = activation_order(events);
    let m = events.len();
    let ghost proc = in_order(events@, order@);
    let mut names: Vec<String> = Vec::new();
    let mut stacks: Vec<Vec<usize>> = Vec::new();
    let mut spans: Vec<ActivationSpan> = Vec::new();
    let mut r: usize = 0;
    while r < m
        invariant
            r <= m,
            m == events.len(),
            event_order(events@, order@),
            proc == in_order(events@, order@),
            names.len() == stacks.len(),
            spellings(names@) == first_seen(proc.take(r as int)),
            forall|t: int| 0 <= t < names.len() ==> #[trigger] stacks@[t]@ == stack_after(proc.take(r as int), names@[t]@),
            spans_view(spans@) == closed_spans(proc.take(r as int)),
        decreases m - r,
    {
        let e = &events[order[r]];
        proof {
            lemma_take_step(proc, r as int);
            assert(proc[r as int] == *e);
        }
        let ghost prev = proc.take(r as int);
        let ghost sp0 = spans@;
        let ghost n0 = names@;
        let ghost st0 = stacks@;
        let t = match find_name(&names, &e.participant) {
            Some(t) => t,
            None => {
                names.push(e.participant.clone());
                stacks.push(Vec::new());
                proof {
                    assert forall|q: int| 0 <= q < n0.len() implies n0[q]@ != e.participant@ by {
                        assert(spellings(n0)[q] == n0[q]@);
                    }
                    assert(!first_seen(prev).contains(e.participant@)) by {
                        if first_seen(prev).contains(e.participant@) {
                            let q = choose|q: int| 0 <= q < first_seen(prev).len() && first_seen(prev)[q] == e.participant@;
                            assert(spellings(n0)[q] == n0[q]@);
                        }
                    }
                    assert(stack_after(prev, e.participant@) =~= Seq::<usize>::empty()) by {
                        lemma_unseen_stack(prev, e.participant@);
                    }
                }
                names.len() - 1
            },
        };
        let ghost names1 = names@;
        let ghost stacks1 = stacks@;
        proof {
            lemma_first_seen_distinct(prev);
            assert(names1[t as int]@ == e.participant@);
            assert(stacks1[t as int]@ == stack_after(prev, e.participant@));
        }
        let mut st = stacks[t].clone();
        if e.activate {
            st.push(e.index);
        } else if st.len() > 0 {
            let start = st.pop().unwrap();
            let depth = st.len();
            spans.push(ActivationSpan { participant: e.participant.clone(), start, end: Some(e.index), depth });
        }
        stacks.set(t, st);
        r += 1;
        proof {
            let now = proc.take(r as int);
            assert(spellings(names@) =~= first_seen(now)) by {
                if n0.len() == names@.len() {
                    assert(first_seen(prev).contains(e.participant@)) by {
                        assert(spellings(n0)[t as int] == e.participant@);
                    }
                } else {
                    assert(spellings(names@) =~= spellings(n0).push(e.participant@));
                }
            }
            assert forall|q: int| 0 <= q < names.len() implies #[trigger] stacks@[q]@ == stack_after(now, names@[q]@) by {
                assert(names@ == names1);
                if q != t {
                    lemma_first_seen_distinct(now);
                    assert(spellings(names@)[q] != spellings(names@)[t as int]);
                    assert(names@[q]@ != e.participant@);
                    assert(stacks@[q] == stacks1[q]);
                    if q < n0.len() {
                        assert(names@[q] == n0[q]);
                        assert(stacks1[q] == st0[q]);
                    }
                }
            }
            assert(spans_view(spans@) =~= closed_spans(now)) by {
                if spans@.len() > sp0.len() {
                    assert(spans@.drop_last() =~= sp0);
                    assert(spans_view(sp0) =~= spans_view(spans@).drop_last());
                } else {
                    assert(spans@ =~= sp0);
                }
            }
        }
    }
    proof {
        assert(proc.take(m as int) =~= proc);
    }
    let mut t: usize = 0;
    while t < names.len()
        invariant
            t <= names.len(),
            names.len() == stacks.len(),
            spellings(names@) == first_seen(proc),
            forall|q: int| 0 <= q < names.len() ==> #[trigger] stacks@[q]@ == stack_after(proc, names@[q]@),
            spans_view(spans@) == closed_spans(proc) + open_spans(
                first_seen(proc).take(t as int),
                proc,
            ),
        decreases names.len() - t,
    {
        let ghost before = spans_view(spans@);
        let mut k: usize = 0;
        while k < stacks[t].len()
            invariant
                t < names.len(),
                names.len() == stacks.len(),
                k <= stacks@[t as int]@.len(),
                stacks@[t as int]@ == stack_after(proc, names@[t as int]@),
                spans_view(spans@) == before + open_bars(names@[t as int]@, proc).take(
                    k as int,
                ),
            decreases stacks@[t as int]@.len() - k,
        {
            let ghost sp0 = spans@;
            spans.push(ActivationSpan { participant: names[t].clone(), start: stacks[t][k], end: None, depth: k });
            k += 1;
            proof {
                assert(spans@.drop_last() =~= sp0);
                assert(spans_view(spans@) =~= spans_view(sp0).push(span_view(spans@[spans@.len() - 1])));
                assert(open_bars(names@[t as int]@, proc).take(k as int) =~= open_bars(names@[t as int]@, proc).take(
                    k - 1,
                ).push(open_bars(names@[t as int]@, proc)[k - 1]));
                assert(spans_view(spans@) =~= before + open_bars(
                    names@[t as int]@,
                    proc,
                ).take(k as int));
            }
        }
        proof {
            let ps = first_seen(proc);
            assert(spellings(names@)[t as int] == names@[t as int]@);
            assert(ps.take(t + 1).drop_last() =~= ps.take(t as int));
            assert(open_bars(names@[t as int]@, proc).take(k as int) =~= open_bars(names@[t as int]@, proc));
            assert(closed_spans(proc) + open_spans(ps.take(t + 1), proc) =~= (closed_spans(proc) + open_spans(
                ps.take(t as int),
                proc,
            )) + open_bars(names@[t as int]@, proc));
        }
        t += 1;
    }
    proof {
        assert(first_seen(proc).take(names.len() as int) =~= first_seen(proc));
        assert(event_order(events@, order@));
    }
    spans
}

/// Each participant appears once in the order of first appearance.
proof fn lemma_first_seen_distinct(evs: Seq<ActivationEvent>)
    ensures
        first_seen(evs).no_duplicates(),
    decreases evs.len(),
{
    if evs.len() > 0 {
        lemma_first_seen_distinct(evs.drop_last());
        let f = first_seen(evs.drop_last());
        if !f.contains(evs.last().participant@) {
            assert forall|a: int, b: int| 0 <= a < b < f.len() + 1 implies f.push(evs.last().participant@)[a] != f.push(
                evs.last().participant@,
            )[b] by {
                if b == f.len() {
                    assert(f[a] != evs.last().participant@);
                }
            }
        }
    }
}

/// A participant not yet seen has no open bars.
proof fn lemma_unseen_stack(evs: Seq<ActivationEvent>, p: Seq<char>)
    requires
        !first_seen(evs).contains(p),
    ensures
        stack_after(evs, p) == Seq::<usize>::empty(),
    decreases evs.len(),
{
    if evs.len() > 0 {
        let f = first_seen(evs.drop_last());
        if f.contains(p) {
            let q = choose|q: int| 0 <= q < f.len() && f[q] == p;
            if !f.contains(evs.last().participant@) {
                assert(f.push(evs.last().participant@)[q] == p);
            }
        }
        lemma_unseen_stack(evs.drop_last(), p);
        if evs.last().participant@ == p {
            if f.contains(p) {
            } else {
                assert(f.push(p)[f.len() as int] == p);
            }
        }
    }
}

/// The events are taken by message index.
pub open spec fn by_index(evs: Seq<ActivationEvent>) -> bool {
    forall|a: int, b: int| 0 <= a < b < evs.len() ==> #[trigger] evs[a].index <= #[trigger] evs[b].index
}

proof fn lemma_open_before(evs: Seq<ActivationEvent>, p: Seq<char>)
    requires
        by_index(evs),
        evs.len() > 0,
    ensures
        forall|k: int| 0 <= k < stack_after(evs, p).len() ==> #[trigger] stack_after(evs, p)[k] <= evs.last().index,
    decreases evs.len(),
{
    let rest = evs.drop_last();
    let s = stack_after(rest, p);
    if rest.len() > 0 {
        assert(by_index(rest)) by {
            assert forall|a: int, b: int| 0 <= a < b < rest.len() implies #[trigger] rest[a].index <= #[trigger] rest[b].index by {
                assert(rest[a] == evs[a] && rest[b] == evs[b]);
            }
        }
        lemma_open_before(rest, p);
        assert(rest.last() == evs[evs.len() - 2]);
        assert(evs[evs.len() - 2].index <= evs[evs.len() - 1].index);
    } else {
        assert(s =~= Seq::<usize>::empty());
    }
    assert forall|k: int| 0 <= k < stack_after(evs, p).len() implies #[trigger] stack_after(evs, p)[k] <= evs.last().index by {
        if k < s.len() {
            assert(stack_after(evs, p)[k] == s[k]);
        }
    }
}

/// Taken in message order, every bar closes no earlier than it opens, and
/// sits below as many bars as were open on its lifeline.
pub proof fn lemma_bars_close_after_opening(evs: Seq<ActivationEvent>)
    requires
        by_index(evs),
    ensures
        forall|i: int|
            0 <= i < closed_spans(evs).len() ==> (#[trigger] closed_spans(evs)[i].2 matches Some(end)
                && closed_spans(evs)[i].1 <= end),
    decreases evs.len(),
{
    if evs.len() > 0 {
        let rest = evs.drop_last();
        assert(by_index(rest)) by {
            assert forall|a: int, b: int| 0 <= a < b < rest.len() implies #[trigger] rest[a].index <= #[trigger] rest[b].index by {
                assert(rest[a] == evs[a] && rest[b] == evs[b]);
            }
        }
        lemma_bars_close_after_opening(rest);
        let e = evs.last();
        let st = stack_after(rest, e.participant@);
        if !e.activate && st.len() > 0 {
            lemma_open_before(rest, e.participant@);
            assert(rest.last() == evs[evs.len() - 2]);
            assert(evs[evs.len() - 2].index <= evs[evs.len() - 1].index);
            assert(st[st.len() - 1] <= rest.last().index);
        }
    }
}

/// The order in which the events are taken is by message index.
pub proof fn lemma_event_order_by_index(events: Seq<ActivationEvent>, order: Seq<usize>)
    requires
        event_order(events, order),
    ensures
        by_index(in_order(events, order)),
{
    let proc = in_order(events, order);
    assert forall|a: int, b: int| 0 <= a < b < proc.len() implies #[trigger] proc[a].index <= #[trigger] proc[b].index by {
        assert(proc[a] == events[order[a] as int]);
        assert(proc[b] == events[order[b] as int]);
        assert(events[order[a] as int].index < events[order[b] as int].index || events[order[a] as int].index
            == events[order[b] as int].index);
    }
}
} // verus!
