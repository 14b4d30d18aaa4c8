//! The cell search behind orthogonal edge routing: a best-first search over
//! the cells of a routing grid, where a state is a cell together with the
//! direction of the step that entered it, so that turns can cost extra.
//! Cells are numbered row by row; the geometry that decides which cells an
//! obstacle covers, and how crowded a cell already is, is the caller's.
use vstd::prelude::*;

verus! {

/// A search state: a cell `(x, y)` and the direction of the step that
/// entered it (0 up, 1 down, 2 left, 3 right).
#[derive(Clone, Copy)]
pub struct GridState {
    pub x: usize,
    pub y: usize,
    pub dir: u8,
}

/// A queued state with its cost so far and its estimated total cost.
#[derive(Clone, Copy)]
struct GridEntry {
    est: u32,
    cost: u32,
    state: GridState,
}

/// The position of state `(x, y, d)` among the `cols * rows * 4` states.
pub open spec fn state_index(cols: int, x: int, y: int, d: int) -> int {
    (y * cols + x) * 4 + d
}

/// The cell one step from `(x, y)` in direction `d`.
pub open spec fn moved(x: int, y: int, d: int) -> (int, int) {
    if d == 0 {
        (x, y - 1)
    } else if d == 1 {
        (x, y + 1)
    } else if d == 2 {
        (x - 1, y)
    } else {
        (x + 1, y)
    }
}

/// The two cells share a side.
pub open spec fn adjacent(a: (usize, usize), b: (usize, usize)) -> bool {
    ||| a.0 == b.0 && (a.1 + 1 == b.1 || b.1 + 1 == a.1)
    ||| a.1 == b.1 && (a.0 + 1 == b.0 || b.0 + 1 == a.0)
}

/// A route may use the cell: it is the start, the end, or not blocked.
pub open spec fn cell_open(
    cols: int,
    blocked: Seq<bool>,
    start: (usize, usize),
    end: (usize, usize),
    c: (usize, usize),
) -> bool {
    c == start || c == end || !blocked[c.1 * cols + c.0]
}

/// `cells` leads from `start` to `end` through cells of the grid that a
/// route may use, each sharing a side with the next.
pub open spec fn is_grid_route(
    cols: int,
    rows: int,
    blocked: Seq<bool>,
    start: (usize, usize),
    end: (usize, usize),
    cells: Seq<(usize, usize)>,
) -> bool {
    &&& cells.len() >= 1
    &&& cells[0] == start
    &&& cells[cells.len() - 1] == end
    &&& forall|i: int|
        0 <= i < cells.len() ==> #[trigger] cells[i].0 < cols && cells[i].1 < rows && cell_open(
            cols,
            blocked,
            start,
            end,
            cells[i],
        )
    &&& forall|i: int| 0 <= i < cells.len() - 1 ==> adjacent(#[trigger] cells[i], cells[i + 1])
}

/// Some route leads from `start` to `end`.
pub open spec fn grid_route_exists(
    cols: int,
    rows: int,
    blocked: Seq<bool>,
    start: (usize, usize),
    end: (usize, usize),
) -> bool {
    exists|cells: Seq<(usize, usize)>| #[trigger] is_grid_route(cols, rows, blocked, start, end, cells)
}

proof fn lemma_state_index_bound(cols: int, rows: int, x: int, y: int, d: int)
    requires
        0 <= x < cols,
        0 <= y < rows,
        0 <= d < 4,
    ensures
        0 <= y * cols,
        y * cols + x < cols * rows,
        0 <= state_index(cols, x, y, d) < cols * rows * 4,
{
    assert(0 <= y * cols && y * cols + x < cols * rows) by (nonlinear_arith)
        requires
            0 <= x < cols,
            0 <= y < rows,
    {
        assert(y * cols <= (rows - 1) * cols);
    }
}

proof fn lemma_state_index_injective(cols: int, x1: int, y1: int, d1: int, x2: int, y2: int, d2: int)
    requires
        0 <= x1 < cols,
        0 <= x2 < cols,
        0 <= y1,
        0 <= y2,
        0 <= d1 < 4,
        0 <= d2 < 4,
        state_index(cols, x1, y1, d1) == state_index(cols, x2, y2, d2),
    ensures
        x1 == x2 && y1 == y2 && d1 == d2,
{
    let a = y1 * cols + x1;
    let b = y2 * cols + x2;
    assert(a == b && d1 == d2);
    assert(y1 == y2) by (nonlinear_arith)
        requires
            y1 * cols + x1 == y2 * cols + x2,
            0 <= x1 < cols,
            0 <= x2 < cols,
            0 <= y1,
            0 <= y2,
    {
        if y1 < y2 {
            assert(y2 * cols >= (y1 + 1) * cols);
        }
        if y2 < y1 {
            assert(y1 * cols >= (y2 + 1) * cols);
        }
    }
}

/// `a` leaves the queue before `b`: lower estimate, then lower cost, then
/// the larger row, column and direction.
spec fn leaves_before(a: GridEntry, b: GridEntry) -> bool {
    ||| a.est < b.est
    ||| a.est == b.est && a.cost < b.cost
    ||| a.est == b.est && a.cost == b.cost && a.state.y > b.state.y
    ||| a.est == b.est && a.cost == b.cost && a.state.y == b.state.y && a.state.x > b.state.x
    ||| a.est == b.est && a.cost == b.cost && a.state.y == b.state.y && a.state.x == b.state.x
        && a.state.dir > b.state.dir
}

fn entry_leaves_before(a: &GridEntry, b: &GridEntry) -> (r: bool)
    ensures
        r == leaves_before(*a, *b),
{
    if a.est != b.est {
        return a.est < b.est;
    }
    if a.cost != b.cost {
        return a.cost < b.cost;
    }
    if a.state.y != b.state.y {
        return a.state.y > b.state.y;
    }
    if a.state.x != b.state.x {
        return a.state.x > b.state.x;
    }
    a.state.dir > b.state.dir
}

/// Takes out the entry that leaves the queue first.
fn pop_first(queue: &mut Vec<GridEntry>) -> (e: GridEntry)
    requires
        old(queue).len() > 0,
    ensures
        exists|i: int|
            0 <= i < old(queue)@.len() && e == old(queue)@[i] && final(queue)@ == old(queue)@.update(
                i,
                old(queue)@.last(),
            ).drop_last(),
        forall|k: int| 0 <= k < old(queue)@.len() ==> !leaves_before(#[trigger] old(queue)@[k], e),
{
    let mut best: usize = 0;
    let mut k: usize = 1;
    while k < queue.len()
        invariant
            1 <= k <= queue.len(),
            best < queue.len(),
            forall|j: int| 0 <= j < k ==> !leaves_before(#[trigger] queue@[j], queue@[best as int]),
        decreases queue.len() - k,
    {
        if entry_leaves_before(&queue[k], &queue[best]) {
            best = k;
        }
        k += 1;
    }
    queue.swap_remove(best)
}


/// The link from state `(x, y, d)` back to the state `u` it was reached
/// from: `u` is a state of the grid one step back along `d`, and it comes
/// strictly earlier in the order by cost, then by the time it was linked.
spec fn link_ok(cols: int, rows: int, best: Seq<u32>, stamp: Seq<nat>, x: int, y: int, d: int, u: GridState) -> bool {
    let i = state_index(cols, x, y, d);
    let j = state_index(cols, u.x as int, u.y as int, u.dir as int);
    &&& u.x < cols && u.y < rows && u.dir < 4
    &&& moved(u.x as int, u.y as int, d) == (x, y)
    &&& best[i] < u32::MAX
    &&& (best[j] < best[i] || (best[j] == best[i] && stamp[j] < stamp[i]))
}

/// What the search knows of state `(x, y, d)`: once reached, its cell may
/// be used; a reached state without a link is a start state; a link obeys
/// `link_ok`.
spec fn state_ok(
    cols: int,
    rows: int,
    blocked: Seq<bool>,
    start: (usize, usize),
    end: (usize, usize),
    best: Seq<u32>,
    prev: Seq<Option<GridState>>,
    stamp: Seq<nat>,
    clock: nat,
    x: int,
    y: int,
    d: int,
) -> bool {
    let i = state_index(cols, x, y, d);
    &&& stamp[i] < clock
    &&& best[i] < u32::MAX ==> cell_open(cols, blocked, start, end, (x as usize, y as usize))
    &&& best[i] < u32::MAX && prev[i] is None ==> x == start.0 && y == start.1
    &&& prev[i] matches Some(u) ==> link_ok(cols, rows, best, stamp, x, y, d, u)
}

spec fn search_ok(
    cols: int,
    rows: int,
    blocked: Seq<bool>,
    start: (usize, usize),
    end: (usize, usize),
    best: Seq<u32>,
    prev: Seq<Option<GridState>>,
    stamp: Seq<nat>,
    clock: nat,
) -> bool {
    &&& best.len() == cols * rows * 4
    &&& prev.len() == cols * rows * 4
    &&& stamp.len() == cols * rows * 4
    &&& forall|x: int, y: int, d: int|
        0 <= x < cols && 0 <= y < rows && 0 <= d < 4 ==> #[trigger] state_ok(
            cols,
            rows,
            blocked,
            start,
            end,
            best,
            prev,
            stamp,
            clock,
            x,
            y,
            d,
        )
}

/// Every queued state lies on the grid, with a cost below the ceiling.
spec fn queue_ok(cols: int, rows: int, queue: Seq<GridEntry>) -> bool {
    forall|k: int|
        0 <= k < queue.len() ==> #[trigger] queue[k].state.x < cols && queue[k].state.y < rows
            && queue[k].state.dir < 4 && queue[k].cost < u32::MAX
}

/// The fixed inputs of a search, as the proofs about its progress see them.
struct Problem {
    cols: int,
    rows: int,
    blocked: Seq<bool>,
    occupancy: Seq<u16>,
    start: (usize, usize),
    end: (usize, usize),
    step: u32,
    turn: u32,
    occw: u32,
}

spec fn state_count(g: Problem) -> int {
    g.cols * g.rows * 4
}

/// The ceiling on any reached state's cost: a repeat-free chain of states
/// has fewer steps than there are states.
spec fn cost_cap(g: Problem) -> int {
    state_count(g) * step_bound(g.step, g.turn, g.occw)
}

/// `e` queues state `(x, y, d)` at cost `c`.
spec fn entry_is(e: GridEntry, x: int, y: int, d: int, c: int) -> bool {
    e.state.x == x && e.state.y == y && e.state.dir == d && e.cost == c
}

spec fn queued(queue: Seq<GridEntry>, x: int, y: int, d: int, c: int) -> bool {
    exists|k: int| 0 <= k < queue.len() && #[trigger] entry_is(queue[k], x, y, d, c)
}

/// The step from state `(x, y, d)` in direction `dd` has been tried: the
/// state it leads to, if on the grid and open, costs no more than by this
/// step.
spec fn relaxed(g: Problem, best: Seq<u32>, x: int, y: int, d: int, dd: int) -> bool {
    let (nx, ny) = moved(x, y, dd);
    (0 <= nx < g.cols && 0 <= ny < g.rows && cell_open(g.cols, g.blocked, g.start, g.end, (nx as usize, ny as usize)))
        ==> best[state_index(g.cols, nx, ny, dd)] <= stepped_cost(
        best[state_index(g.cols, x, y, d)],
        d,
        dd,
        g.occupancy[ny * g.cols + nx],
        g.step,
        g.turn,
        g.occw,
    )
}

/// `p` is a repeat-free chain of states ending in state `i`, each no dearer
/// than `i`, and `i` costs at most one step bound per step of the chain.
spec fn path_ok(g: Problem, best: Seq<u32>, p: Seq<int>, i: int) -> bool {
    &&& p.len() >= 1
    &&& p[p.len() - 1] == i
    &&& p.no_duplicates()
    &&& forall|t: int| 0 <= t < p.len() ==> 0 <= #[trigger] p[t] < state_count(g) && best[p[t]] <= best[i]
    &&& best[i] <= (p.len() - 1) * step_bound(g.step, g.turn, g.occw)
}

/// What the search knows of the progress at state `(x, y, d)`: once
/// reached (unless it is `skip`, the state being expanded), it is expanded
/// or queued at its cost; an expanded state is not an end state and has
/// tried its four steps; a reached state has a chain behind it.
spec fn progress_ok(
    g: Problem,
    best: Seq<u32>,
    settled: Seq<bool>,
    paths: Seq<Seq<int>>,
    queue: Seq<GridEntry>,
    skip: int,
    x: int,
    y: int,
    d: int,
) -> bool {
    let i = state_index(g.cols, x, y, d);
    &&& i != skip && best[i] < u32::MAX ==> settled[i] || queued(queue, x, y, d, best[i] as int)
    &&& settled[i] ==> best[i] < u32::MAX && !(x == g.end.0 && y == g.end.1) && relaxed(g, best, x, y, d, 0)
        && relaxed(g, best, x, y, d, 1) && relaxed(g, best, x, y, d, 2) && relaxed(g, best, x, y, d, 3)
    &&& best[i] < u32::MAX ==> path_ok(g, best, paths[i], i)
}

spec fn progress(
    g: Problem,
    best: Seq<u32>,
    settled: Seq<bool>,
    paths: Seq<Seq<int>>,
    queue: Seq<GridEntry>,
    skip: int,
) -> bool {
    &&& best.len() == state_count(g)
    &&& settled.len() == state_count(g)
    &&& paths.len() == state_count(g)
    &&& forall|x: int, y: int, d: int|
        0 <= x < g.cols && 0 <= y < g.rows && 0 <= d < 4 ==> #[trigger] progress_ok(
            g,
            best,
            settled,
            paths,
            queue,
            skip,
            x,
            y,
            d,
        )
}

spec fn pot_term(b: u32, cap: int) -> int {
    if b < u32::MAX {
        cap + 1 - b
    } else {
        0
    }
}

/// How far the best costs of the first `k` states have fallen, counted so
/// that each fall counts at least one.
spec fn potential(best: Seq<u32>, cap: int, k: int) -> int
    decreases k,
{
    if k <= 0 {
        0
    } else {
        potential(best, cap, k - 1) + pot_term(best[k - 1], cap)
    }
}

proof fn lemma_potential_update(best: Seq<u32>, cap: int, k: int, i: int, v: u32)
    requires
        0 <= i < k <= best.len(),
    ensures
        potential(best.update(i, v), cap, k) == potential(best, cap, k) - pot_term(best[i], cap) + pot_term(v, cap),
    decreases k,
{
    if k - 1 > i {
        lemma_potential_update(best, cap, k - 1, i, v);
    } else {
        lemma_potential_same(best, best.update(i, v), cap, k - 1);
    }
}

proof fn lemma_potential_same(a: Seq<u32>, b: Seq<u32>, cap: int, k: int)
    requires
        0 <= k <= a.len(),
        k <= b.len(),
        forall|j: int| 0 <= j < k ==> a[j] == b[j],
    ensures
        potential(a, cap, k) == potential(b, cap, k),
    decreases k,
{
    if k > 0 {
        lemma_potential_same(a, b, cap, k - 1);
    }
}

proof fn lemma_potential_bounds(best: Seq<u32>, cap: int, k: int)
    requires
        0 <= k <= best.len(),
        0 <= cap,
        forall|j: int| 0 <= j < k && best[j] < u32::MAX ==> #[trigger] best[j] <= cap,
    ensures
        0 <= potential(best, cap, k) <= k * (cap + 1),
    decreases k,
{
    if k > 0 {
        lemma_potential_bounds(best, cap, k - 1);
        assert((k - 1) * (cap + 1) + (cap + 1) == k * (cap + 1)) by (nonlinear_arith);
    }
}

/// A repeat-free chain of states has at most as many entries as there are
/// states.
proof fn lemma_chain_len(p: Seq<int>, n: int)
    requires
        0 <= n,
        p.no_duplicates(),
        forall|t: int| 0 <= t < p.len() ==> 0 <= #[trigger] p[t] < n,
    ensures
        p.len() <= n,
{
    if p.len() > n {
        crate::digraph::lemma_pigeonhole(p, n);
        let (a, b) = choose|a: int, b: int| 0 <= a < b < p.len() && p[a] == p[b];
    }
}

/// A reached state's cost is at most the cost cap.
proof fn lemma_reached_cost(g: Problem, best: Seq<u32>, p: Seq<int>, i: int)
    requires
        path_ok(g, best, p, i),
        g.cols >= 0 && g.rows >= 0,
    ensures
        best[i] <= cost_cap(g) - step_bound(g.step, g.turn, g.occw),
{
    lemma_chain_len(p, state_count(g));
    let bnd = step_bound(g.step, g.turn, g.occw);
    let n = state_count(g);
    assert((p.len() - 1) * bnd <= (n - 1) * bnd) by (nonlinear_arith)
        requires
            p.len() <= n,
            bnd >= 0,
    ;
    assert((n - 1) * bnd == n * bnd - bnd) by (nonlinear_arith);
}

/// Taking entry `i` out of the queue keeps every other state's entry.
proof fn lemma_queued_after_pop(queue: Seq<GridEntry>, i: int, x: int, y: int, d: int, c: int)
    requires
        0 <= i < queue.len(),
        queued(queue, x, y, d, c),
        !entry_is(queue[i], x, y, d, c),
    ensures
        queued(queue.update(i, queue.last()).drop_last(), x, y, d, c),
{
    let q2 = queue.update(i, queue.last()).drop_last();
    let k = choose|k: int| 0 <= k < queue.len() && #[trigger] entry_is(queue[k], x, y, d, c);
    if k == queue.len() - 1 {
        assert(entry_is(q2[i], x, y, d, c));
    } else {
        assert(entry_is(q2[k], x, y, d, c));
    }
}

proof fn lemma_queued_after_push(queue: Seq<GridEntry>, e: GridEntry, x: int, y: int, d: int, c: int)
    requires
        queued(queue, x, y, d, c) || entry_is(e, x, y, d, c),
    ensures
        queued(queue.push(e), x, y, d, c),
{
    if entry_is(e, x, y, d, c) {
        assert(entry_is(queue.push(e)[queue.len() as int], x, y, d, c));
    } else {
        let k = choose|k: int| 0 <= k < queue.len() && #[trigger] entry_is(queue[k], x, y, d, c);
        assert(entry_is(queue.push(e)[k], x, y, d, c));
    }
}

/// Every reached state's cost is at most the cost cap.
spec fn cost_capped(g: Problem, best: Seq<u32>) -> bool {
    forall|j: int| 0 <= j < best.len() && #[trigger] best[j] < u32::MAX ==> best[j] <= cost_cap(g)
}

spec fn grid_shape_ok(g: Problem) -> bool {
    &&& 1 <= g.cols <= usize::MAX
    &&& 1 <= g.rows <= usize::MAX
    &&& g.blocked.len() == g.cols * g.rows
    &&& g.occupancy.len() == g.cols * g.rows
}

/// A tried step stays tried when costs only fall, the tried state's own
/// cost aside.
proof fn lemma_relaxed_mono(g: Problem, best: Seq<u32>, best2: Seq<u32>, x: int, y: int, d: int, dd: int)
    requires
        grid_shape_ok(g),
        0 <= x < g.cols && 0 <= y < g.rows && 0 <= d < 4,
        0 <= dd < 4,
        relaxed(g, best, x, y, d, dd),
        best2.len() == best.len(),
        best.len() == state_count(g),
        best2[state_index(g.cols, x, y, d)] == best[state_index(g.cols, x, y, d)],
        forall|m: int| 0 <= m < best.len() ==> #[trigger] best2[m] <= best[m],
    ensures
        relaxed(g, best2, x, y, d, dd),
{
    let (nx, ny) = moved(x, y, dd);
    let j = state_index(g.cols, x, y, d);
    if 0 <= nx < g.cols && 0 <= ny < g.rows && cell_open(g.cols, g.blocked, g.start, g.end, (nx as usize, ny as usize)) {
        lemma_state_index_bound(g.cols, g.rows, nx, ny, dd);
        let m = state_index(g.cols, nx, ny, dd);
        assert(best2[m] <= best[m]);
        assert(best[m] <= stepped_cost(best[j], d, dd, g.occupancy[ny * g.cols + nx], g.step, g.turn, g.occw));
    }
}

/// Dropping an entry that no longer carries its state's best cost keeps
/// the progress bookkeeping.
proof fn lemma_pop_stale(
    g: Problem,
    best: Seq<u32>,
    settled: Seq<bool>,
    paths: Seq<Seq<int>>,
    queue: Seq<GridEntry>,
    i: int,
)
    requires
        grid_shape_ok(g),
        progress(g, best, settled, paths, queue, -1),
        queue_ok(g.cols, g.rows, queue),
        0 <= i < queue.len(),
        queue[i].cost != best[state_index(g.cols, queue[i].state.x as int, queue[i].state.y as int, queue[i].state.dir as int)],
    ensures
        progress(g, best, settled, paths, queue.update(i, queue.last()).drop_last(), -1),
{
    let q2 = queue.update(i, queue.last()).drop_last();
    let e = queue[i];
    lemma_state_index_bound(g.cols, g.rows, e.state.x as int, e.state.y as int, e.state.dir as int);
    assert forall|x: int, y: int, d: int| 0 <= x < g.cols && 0 <= y < g.rows && 0 <= d < 4 implies #[trigger] progress_ok(
        g,
        best,
        settled,
        paths,
        q2,
        -1,
        x,
        y,
        d,
    ) by {
        assert(progress_ok(g, best, settled, paths, queue, -1, x, y, d));
        let j = state_index(g.cols, x, y, d);
        lemma_state_index_bound(g.cols, g.rows, x, y, d);
        if best[j] < u32::MAX && !settled[j] {
            lemma_queued_after_pop(queue, i, x, y, d, best[j] as int);
        }
    }
}

/// Taking out an entry that carries its state's best cost, to expand that
/// state, keeps the bookkeeping of every other state.
proof fn lemma_pop_fresh(
    g: Problem,
    best: Seq<u32>,
    settled: Seq<bool>,
    paths: Seq<Seq<int>>,
    queue: Seq<GridEntry>,
    i: int,
)
    requires
        grid_shape_ok(g),
        progress(g, best, settled, paths, queue, -1),
        queue_ok(g.cols, g.rows, queue),
        0 <= i < queue.len(),
    ensures
        progress(
            g,
            best,
            settled.update(
                state_index(g.cols, queue[i].state.x as int, queue[i].state.y as int, queue[i].state.dir as int),
                false,
            ),
            paths,
            queue.update(i, queue.last()).drop_last(),
            state_index(g.cols, queue[i].state.x as int, queue[i].state.y as int, queue[i].state.dir as int),
        ),
{
    let q2 = queue.update(i, queue.last()).drop_last();
    let e = queue[i];
    let ei = state_index(g.cols, e.state.x as int, e.state.y as int, e.state.dir as int);
    let settled2 = settled.update(ei, false);
    lemma_state_index_bound(g.cols, g.rows, e.state.x as int, e.state.y as int, e.state.dir as int);
    assert forall|x: int, y: int, d: int| 0 <= x < g.cols && 0 <= y < g.rows && 0 <= d < 4 implies #[trigger] progress_ok(
        g,
        best,
        settled2,
        paths,
        q2,
        ei,
        x,
        y,
        d,
    ) by {
        assert(progress_ok(g, best, settled, paths, queue, -1, x, y, d));
        let j = state_index(g.cols, x, y, d);
        lemma_state_index_bound(g.cols, g.rows, x, y, d);
        if j != ei && best[j] < u32::MAX && !settled[j] {
            if entry_is(queue[i], x, y, d, best[j] as int) {
                assert(j == ei);
            }
            lemma_queued_after_pop(queue, i, x, y, d, best[j] as int);
        }
    }
}

/// Reaching `(nx, ny, d)` from the state being expanded at cost `nc`, lower
/// than its best so far, and queueing it, keeps the progress bookkeeping;
/// the steps already tried from the expanded state stay tried.
proof fn lemma_progress_relax(
    g: Problem,
    best: Seq<u32>,
    settled: Seq<bool>,
    paths: Seq<Seq<int>>,
    queue: Seq<GridEntry>,
    state: GridState,
    nx: int,
    ny: int,
    d: int,
    nc: u32,
    est: u32,
)
    requires
        grid_shape_ok(g),
        state.x < g.cols && state.y < g.rows && state.dir < 4,
        progress(
            g,
            best,
            settled,
            paths,
            queue,
            state_index(g.cols, state.x as int, state.y as int, state.dir as int),
        ),
        cost_capped(g, best),
        !settled[state_index(g.cols, state.x as int, state.y as int, state.dir as int)],
        best[state_index(g.cols, state.x as int, state.y as int, state.dir as int)] < u32::MAX,
        0 <= d < 4,
        moved(state.x as int, state.y as int, d) == (nx, ny),
        0 <= nx < g.cols,
        0 <= ny < g.rows,
        nc == stepped_cost(
            best[state_index(g.cols, state.x as int, state.y as int, state.dir as int)],
            state.dir as int,
            d,
            g.occupancy[ny * g.cols + nx],
            g.step,
            g.turn,
            g.occw,
        ),
        nc < best[state_index(g.cols, nx, ny, d)],
    ensures
        ({
            let si = state_index(g.cols, state.x as int, state.y as int, state.dir as int);
            let ni = state_index(g.cols, nx, ny, d);
            let best2 = best.update(ni, nc);
            &&& progress(
                g,
                best2,
                settled.update(ni, false),
                paths.update(ni, paths[si].push(ni)),
                queue.push(GridEntry { est, cost: nc, state: GridState { x: nx as usize, y: ny as usize, dir: d as u8 } }),
                si,
            )
            &&& cost_capped(g, best2)
            &&& nc <= cost_cap(g)
            &&& forall|dd: int| 0 <= dd < 4 && relaxed(g, best, state.x as int, state.y as int, state.dir as int, dd) ==> #[trigger] relaxed(
                g,
                best2,
                state.x as int,
                state.y as int,
                state.dir as int,
                dd,
            )
            &&& relaxed(g, best2, state.x as int, state.y as int, state.dir as int, d)
        }),
{
    let si = state_index(g.cols, state.x as int, state.y as int, state.dir as int);
    let ni = state_index(g.cols, nx, ny, d);
    let best2 = best.update(ni, nc);
    let settled2 = settled.update(ni, false);
    let paths2 = paths.update(ni, paths[si].push(ni));
    let e = GridEntry { est, cost: nc, state: GridState { x: nx as usize, y: ny as usize, dir: d as u8 } };
    let q2 = queue.push(e);
    let bnd = step_bound(g.step, g.turn, g.occw);
    lemma_state_index_bound(g.cols, g.rows, nx, ny, d);
    lemma_state_index_bound(g.cols, g.rows, state.x as int, state.y as int, state.dir as int);
    if si == ni {
        lemma_state_index_injective(g.cols, nx, ny, d, state.x as int, state.y as int, state.dir as int);
    }
    assert(progress_ok(g, best, settled, paths, queue, si, state.x as int, state.y as int, state.dir as int));
    let ps = paths[si];
    assert(path_ok(g, best, ps, si));
    lemma_next_cost_bound(best[si], state.dir as int, d, g.occupancy[ny * g.cols + nx], g.step, g.turn, g.occw);
    assert(!ps.contains(ni)) by {
        if ps.contains(ni) {
            let t = choose|t: int| 0 <= t < ps.len() && ps[t] == ni;
            assert(best[ps[t]] <= best[si]);
        }
    }
    let pn = ps.push(ni);
    assert(path_ok(g, best2, pn, ni)) by {
        assert forall|t: int| 0 <= t < pn.len() implies 0 <= #[trigger] pn[t] < state_count(g) && best2[pn[t]] <= best2[ni] by {
            if t < ps.len() {
                assert(pn[t] == ps[t]);
                assert(ps[t] != ni);
            }
        }
        assert forall|a: int, b: int| 0 <= a < b < pn.len() implies pn[a] != pn[b] by {
            if b < ps.len() {
                assert(ps[a] != ps[b]);
            } else {
                assert(pn[a] == ps[a]);
            }
        }
        assert((ps.len() - 1) * bnd + bnd == ps.len() * bnd) by (nonlinear_arith);
    }
    lemma_reached_cost(g, best2, pn, ni);
    assert forall|x: int, y: int, dd: int| 0 <= x < g.cols && 0 <= y < g.rows && 0 <= dd < 4 implies #[trigger] progress_ok(
        g,
        best2,
        settled2,
        paths2,
        q2,
        si,
        x,
        y,
        dd,
    ) by {
        assert(progress_ok(g, best, settled, paths, queue, si, x, y, dd));
        let j = state_index(g.cols, x, y, dd);
        lemma_state_index_bound(g.cols, g.rows, x, y, dd);
        if j == ni {
            lemma_state_index_injective(g.cols, x, y, dd, nx, ny, d);
            lemma_queued_after_push(queue, e, x, y, dd, nc as int);
        } else {
            if j != si && best[j] < u32::MAX && !settled[j] {
                lemma_queued_after_push(queue, e, x, y, dd, best[j] as int);
            }
            if settled[j] {
                lemma_relaxed_mono(g, best, best2, x, y, dd, 0);
                lemma_relaxed_mono(g, best, best2, x, y, dd, 1);
                lemma_relaxed_mono(g, best, best2, x, y, dd, 2);
                lemma_relaxed_mono(g, best, best2, x, y, dd, 3);
            }
            if best[j] < u32::MAX {
                let pj = paths[j];
                assert(path_ok(g, best2, pj, j)) by {
                    assert forall|t: int| 0 <= t < pj.len() implies 0 <= #[trigger] pj[t] < state_count(g) && best2[pj[t]]
                        <= best2[j] by {
                        assert(best[pj[t]] <= best[j]);
                    }
                }
            }
        }
    }
    assert forall|dd: int| 0 <= dd < 4 && relaxed(g, best, state.x as int, state.y as int, state.dir as int, dd) implies #[trigger] relaxed(
        g,
        best2,
        state.x as int,
        state.y as int,
        state.dir as int,
        dd,
    ) by {
        lemma_relaxed_mono(g, best, best2, state.x as int, state.y as int, state.dir as int, dd);
    }
}

/// Once all four steps from the expanded state have been tried, it counts
/// as expanded.
proof fn lemma_progress_settle(
    g: Problem,
    best: Seq<u32>,
    settled: Seq<bool>,
    paths: Seq<Seq<int>>,
    queue: Seq<GridEntry>,
    state: GridState,
)
    requires
        grid_shape_ok(g),
        state.x < g.cols && state.y < g.rows && state.dir < 4,
        progress(
            g,
            best,
            settled,
            paths,
            queue,
            state_index(g.cols, state.x as int, state.y as int, state.dir as int),
        ),
        best[state_index(g.cols, state.x as int, state.y as int, state.dir as int)] < u32::MAX,
        !(state.x == g.end.0 && state.y == g.end.1),
        forall|dd: int| 0 <= dd < 4 ==> #[trigger] relaxed(g, best, state.x as int, state.y as int, state.dir as int, dd),
    ensures
        progress(
            g,
            best,
            settled.update(state_index(g.cols, state.x as int, state.y as int, state.dir as int), true),
            paths,
            queue,
            -1,
        ),
{
    let si = state_index(g.cols, state.x as int, state.y as int, state.dir as int);
    let settled2 = settled.update(si, true);
    lemma_state_index_bound(g.cols, g.rows, state.x as int, state.y as int, state.dir as int);
    assert(relaxed(g, best, state.x as int, state.y as int, state.dir as int, 0));
    assert(relaxed(g, best, state.x as int, state.y as int, state.dir as int, 1));
    assert(relaxed(g, best, state.x as int, state.y as int, state.dir as int, 2));
    assert(relaxed(g, best, state.x as int, state.y as int, state.dir as int, 3));
    assert forall|x: int, y: int, dd: int| 0 <= x < g.cols && 0 <= y < g.rows && 0 <= dd < 4 implies #[trigger] progress_ok(
        g,
        best,
        settled2,
        paths,
        queue,
        -1,
        x,
        y,
        dd,
    ) by {
        assert(progress_ok(g, best, settled, paths, queue, si, x, y, dd));
        let j = state_index(g.cols, x, y, dd);
        lemma_state_index_bound(g.cols, g.rows, x, y, dd);
        if j == si {
            lemma_state_index_injective(g.cols, x, y, dd, state.x as int, state.y as int, state.dir as int);
        }
    }
}

/// With the queue empty and no cost near the ceiling, every cell of a
/// route has an expanded state.
proof fn lemma_route_settled(
    g: Problem,
    best: Seq<u32>,
    settled: Seq<bool>,
    paths: Seq<Seq<int>>,
    cells: Seq<(usize, usize)>,
    i: int,
)
    requires
        grid_shape_ok(g),
        progress(g, best, settled, paths, Seq::<GridEntry>::empty(), -1),
        cost_cap(g) < u32::MAX,
        best[state_index(g.cols, g.start.0 as int, g.start.1 as int, 0)] == 0,
        is_grid_route(g.cols, g.rows, g.blocked, g.start, g.end, cells),
        0 <= i < cells.len(),
    ensures
        exists|d: int| 0 <= d < 4 && #[trigger] settled[state_index(g.cols, cells[i].0 as int, cells[i].1 as int, d)],
    decreases i,
{
    let empty = Seq::<GridEntry>::empty();
    if i == 0 {
        assert(cells[0].0 < g.cols && cells[0].1 < g.rows);
        assert(progress_ok(g, best, settled, paths, empty, -1, g.start.0 as int, g.start.1 as int, 0));
        assert(settled[state_index(g.cols, cells[0].0 as int, cells[0].1 as int, 0)]);
    } else {
        lemma_route_settled(g, best, settled, paths, cells, i - 1);
        let c = cells[i - 1];
        let c2 = cells[i];
        let d0 = choose|d: int| 0 <= d < 4 && #[trigger] settled[state_index(g.cols, c.0 as int, c.1 as int, d)];
        assert(c.0 < g.cols && c.1 < g.rows);
        assert(c2.0 < g.cols && c2.1 < g.rows);
        assert(adjacent(cells[i - 1], cells[i]));
        let dd: int = if c.0 == c2.0 && c2.1 + 1 == c.1 {
            0
        } else if c.0 == c2.0 {
            1
        } else if c2.0 + 1 == c.0 {
            2
        } else {
            3
        };
        assert(moved(c.0 as int, c.1 as int, dd) == (c2.0 as int, c2.1 as int));
        let j = state_index(g.cols, c.0 as int, c.1 as int, d0);
        let m = state_index(g.cols, c2.0 as int, c2.1 as int, dd);
        lemma_state_index_bound(g.cols, g.rows, c.0 as int, c.1 as int, d0);
        lemma_state_index_bound(g.cols, g.rows, c2.0 as int, c2.1 as int, dd);
        assert(progress_ok(g, best, settled, paths, empty, -1, c.0 as int, c.1 as int, d0));
        assert(relaxed(g, best, c.0 as int, c.1 as int, d0, dd));
        assert(cell_open(g.cols, g.blocked, g.start, g.end, cells[i]));
        lemma_next_cost_bound(best[j], d0, dd, g.occupancy[c2.1 * g.cols + c2.0], g.step, g.turn, g.occw);
        lemma_reached_cost(g, best, paths[j], j);
        assert(best[m] < u32::MAX);
        assert(progress_ok(g, best, settled, paths, empty, -1, c2.0 as int, c2.1 as int, dd));
        assert(settled[state_index(g.cols, cells[i].0 as int, cells[i].1 as int, dd)]);
    }
}

/// With the queue empty and no cost near the ceiling, no route exists.
proof fn lemma_drained_no_route(g: Problem, best: Seq<u32>, settled: Seq<bool>, paths: Seq<Seq<int>>)
    requires
        grid_shape_ok(g),
        progress(g, best, settled, paths, Seq::<GridEntry>::empty(), -1),
        cost_cap(g) < u32::MAX,
        best[state_index(g.cols, g.start.0 as int, g.start.1 as int, 0)] == 0,
    ensures
        !grid_route_exists(g.cols, g.rows, g.blocked, g.start, g.end),
{
    if grid_route_exists(g.cols, g.rows, g.blocked, g.start, g.end) {
        let cells = choose|cells: Seq<(usize, usize)>| #[trigger] is_grid_route(g.cols, g.rows, g.blocked, g.start, g.end, cells);
        let last = cells.len() - 1;
        lemma_route_settled(g, best, settled, paths, cells, last);
        let d = choose|d: int| 0 <= d < 4 && #[trigger] settled[state_index(g.cols, cells[last].0 as int, cells[last].1 as int, d)];
        assert(cells[last].0 < g.cols && cells[last].1 < g.rows);
        assert(progress_ok(g, best, settled, paths, Seq::<GridEntry>::empty(), -1, cells[last].0 as int, cells[last].1 as int, d));
    }
}

/// Each queued entry's estimate lies between its cost and its cost plus the
/// estimate of what is still to come.
spec fn est_ok(g: Problem, queue: Seq<GridEntry>) -> bool {
    forall|k: int|
        0 <= k < queue.len() ==> (#[trigger] queue[k]).cost <= queue[k].est && queue[k].est <= (if queue[k].cost
            + remaining_estimate(g.end, g.step, queue[k].state.x as int, queue[k].state.y as int) > u32::MAX {
            u32::MAX as int
        } else {
            queue[k].cost + remaining_estimate(g.end, g.step, queue[k].state.x as int, queue[k].state.y as int)
        })
}

proof fn lemma_moved_step_dir(a: (usize, usize), b: (usize, usize))
    requires
        adjacent(a, b),
    ensures
        moved(a.0 as int, a.1 as int, step_dir(a, b)) == (b.0 as int, b.1 as int),
        0 <= step_dir(a, b) < 4,
{
}

proof fn lemma_step_dir_moved(a: (usize, usize), b: (usize, usize), d: int)
    requires
        0 <= d < 4,
        moved(a.0 as int, a.1 as int, d) == (b.0 as int, b.1 as int),
    ensures
        step_dir(a, b) == d,
{
}

/// The cost of the first `t + 1` cells of a route.
spec fn prefix_cost(g: Problem, cells: Seq<(usize, usize)>, t: int) -> u32 {
    cost_along(
        g.cols,
        g.occupancy,
        g.step,
        g.turn,
        g.occw,
        0,
        if cells.len() >= 2 {
            step_dir(cells[0], cells[1])
        } else {
            0
        },
        cells.take(t + 1),
    )
}

/// The direction in which a route enters its cell `t`.
spec fn prefix_dir(cells: Seq<(usize, usize)>, t: int) -> int {
    last_dir(
        if cells.len() >= 2 {
            step_dir(cells[0], cells[1])
        } else {
            0
        },
        cells.take(t + 1),
    )
}

proof fn lemma_prefix_step(g: Problem, cells: Seq<(usize, usize)>, t: int)
    requires
        0 <= t,
        t + 1 < cells.len(),
    ensures
        prefix_cost(g, cells, t + 1) == stepped_cost(
            prefix_cost(g, cells, t),
            prefix_dir(cells, t),
            step_dir(cells[t], cells[t + 1]),
            crowding(g.cols, g.occupancy, cells[t + 1]),
            g.step,
            g.turn,
            g.occw,
        ),
        prefix_dir(cells, t + 1) == step_dir(cells[t], cells[t + 1]),
{
    let d1 = step_dir(cells[0], cells[1]);
    assert(cells.take(t + 2) =~= cells.take(t + 1).push(cells[t + 1]));
    lemma_cost_along_push(g.cols, g.occupancy, g.step, g.turn, g.occw, 0, d1, cells.take(t + 1), cells[t + 1]);
}

proof fn lemma_prefix_grow(g: Problem, cells: Seq<(usize, usize)>, t: int, j: int)
    requires
        0 <= t <= j < cells.len(),
    ensures
        prefix_cost(g, cells, j) >= (if prefix_cost(g, cells, t) + g.step * (j - t) > u32::MAX {
            u32::MAX as int
        } else {
            prefix_cost(g, cells, t) + g.step * (j - t)
        }),
    decreases j - t,
{
    if j > t {
        lemma_prefix_grow(g, cells, t, j - 1);
        lemma_prefix_step(g, cells, j - 1);
        lemma_stepped_grows(
            prefix_cost(g, cells, j - 1),
            prefix_dir(cells, j - 1),
            step_dir(cells[j - 1], cells[j]),
            crowding(g.cols, g.occupancy, cells[j]),
            g.step,
            g.turn,
            g.occw,
        );
        assert(g.step * (j - t) == g.step * (j - 1 - t) + g.step) by (nonlinear_arith);
    } else {
        assert(g.step * (j - t) == 0) by (nonlinear_arith)
            requires
                j == t,
        ;
    }
}

proof fn lemma_route_dist(cells: Seq<(usize, usize)>, t: int, j: int)
    requires
        0 <= t <= j < cells.len(),
        forall|i: int| 0 <= i < cells.len() - 1 ==> adjacent(#[trigger] cells[i], cells[i + 1]),
    ensures
        (if cells[t].0 >= cells[j].0 {
            cells[t].0 - cells[j].0
        } else {
            cells[j].0 - cells[t].0
        }) + (if cells[t].1 >= cells[j].1 {
            cells[t].1 - cells[j].1
        } else {
            cells[j].1 - cells[t].1
        }) <= j - t,
    decreases j - t,
{
    if j > t {
        lemma_route_dist(cells, t, j - 1);
        assert(adjacent(cells[j - 1], cells[j]));
    }
}

/// While the end has not been taken out, some queued entry on any route of
/// finite cost has an estimate no higher than that route's cost: the
/// route's first state not yet expanded, reached at no more than the
/// route's own cost to it.
proof fn lemma_frontier(
    g: Problem,
    best: Seq<u32>,
    settled: Seq<bool>,
    paths: Seq<Seq<int>>,
    queue: Seq<GridEntry>,
    cells: Seq<(usize, usize)>,
    t: int,
)
    requires
        grid_shape_ok(g),
        progress(g, best, settled, paths, queue, -1),
        est_ok(g, queue),
        is_grid_route(g.cols, g.rows, g.blocked, g.start, g.end, cells),
        route_cost(g.cols, g.occupancy, g.step, g.turn, g.occw, cells) < u32::MAX,
        0 <= t < cells.len(),
        best[state_index(g.cols, cells[t].0 as int, cells[t].1 as int, prefix_dir(cells, t))] <= prefix_cost(g, cells, t),
    ensures
        exists|k: int| 0 <= k < queue.len() && (#[trigger] queue[k]).est <= route_cost(g.cols, g.occupancy, g.step, g.turn, g.occw, cells),
    decreases cells.len() - t,
{
    let k = cells.len() - 1;
    let rc = route_cost(g.cols, g.occupancy, g.step, g.turn, g.occw, cells);
    assert(cells.take(k + 1) =~= cells);
    assert(prefix_cost(g, cells, k) == rc);
    lemma_prefix_grow(g, cells, t, k);
    let x = cells[t].0 as int;
    let y = cells[t].1 as int;
    assert(cells[t].0 < g.cols && cells[t].1 < g.rows);
    let dt = prefix_dir(cells, t);
    assert(0 <= dt < 4) by {
        if t >= 1 {
            assert(cells.take(t + 1)[t - 1] == cells[t - 1]);
            assert(cells.take(t + 1)[t] == cells[t]);
        }
    }
    let i = state_index(g.cols, x, y, dt);
    lemma_state_index_bound(g.cols, g.rows, x, y, dt);
    assert(progress_ok(g, best, settled, paths, queue, -1, x, y, dt));
    if !settled[i] {
        assert(queued(queue, x, y, dt, best[i] as int));
        let q = choose|q: int| 0 <= q < queue.len() && #[trigger] entry_is(queue[q], x, y, dt, best[i] as int);
        lemma_route_dist(cells, t, k);
        assert(cells[k] == g.end);
        let dist = (if x >= g.end.0 { x - g.end.0 } else { g.end.0 - x }) + (if y >= g.end.1 { y - g.end.1 } else { g.end.1 - y });
        assert(dist * g.step <= (k - t) * g.step) by (nonlinear_arith)
            requires
                dist <= k - t,
                0 <= dist,
        ;
        assert((k - t) * g.step == g.step * (k - t)) by (nonlinear_arith);
        assert(queue[q].est <= rc);
    } else {
        assert(t < k) by {
            if t == k {
                assert(cells[k] == g.end);
            }
        }
        let dd = step_dir(cells[t], cells[t + 1]);
        assert(adjacent(cells[t], cells[t + 1]));
        lemma_moved_step_dir(cells[t], cells[t + 1]);
        assert(relaxed(g, best, x, y, dt, dd)) by {
            assert(0 <= dd < 4);
        }
        assert(cells[t + 1].0 < g.cols && cells[t + 1].1 < g.rows && cell_open(g.cols, g.blocked, g.start, g.end, cells[t + 1]));
        lemma_prefix_step(g, cells, t);
        lemma_stepped_mono(best[i], prefix_cost(g, cells, t), dt, dt, dd, crowding(g.cols, g.occupancy, cells[t + 1]), g.step, g.turn, g.occw);
        lemma_frontier(g, best, settled, paths, queue, cells, t + 1);
    }
}

/// The link of state `(x, y, d)` costs its state no less than a step from
/// the linked state's cost now.
spec fn link_cost_ok(g: Problem, best: Seq<u32>, prev: Seq<Option<GridState>>, x: int, y: int, d: int) -> bool {
    let i = state_index(g.cols, x, y, d);
    prev[i] matches Some(u) ==> stepped_cost(
        best[state_index(g.cols, u.x as int, u.y as int, u.dir as int)],
        u.dir as int,
        d,
        crowding(g.cols, g.occupancy, (x as usize, y as usize)),
        g.step,
        g.turn,
        g.occw,
    ) <= best[i]
}

spec fn links_cost_ok(g: Problem, best: Seq<u32>, prev: Seq<Option<GridState>>) -> bool {
    forall|x: int, y: int, d: int|
        0 <= x < g.cols && 0 <= y < g.rows && 0 <= d < 4 ==> #[trigger] link_cost_ok(g, best, prev, x, y, d)
}

proof fn lemma_est_ok_pop(g: Problem, queue: Seq<GridEntry>, i: int)
    requires
        est_ok(g, queue),
        0 <= i < queue.len(),
    ensures
        est_ok(g, queue.update(i, queue.last()).drop_last()),
{
    let q2 = queue.update(i, queue.last()).drop_last();
    assert forall|k: int| 0 <= k < q2.len() implies #[trigger] q2[k] == queue[k] || q2[k] == queue[queue.len() - 1] by {}
    assert forall|k: int| 0 <= k < q2.len() implies (#[trigger] q2[k]).cost <= q2[k].est by {
        assert(q2[k] == queue[k] || q2[k] == queue[queue.len() - 1]);
    }
}

/// Reaching `(nx, ny, d)` from `state` at cost `nc`, lower than its best so
/// far, keeps the search's bookkeeping sound.
proof fn lemma_relax(
    cols: int,
    rows: int,
    blocked: Seq<bool>,
    start: (usize, usize),
    end: (usize, usize),
    best: Seq<u32>,
    prev: Seq<Option<GridState>>,
    stamp: Seq<nat>,
    clock: nat,
    state: GridState,
    nx: int,
    ny: int,
    d: int,
    nc: u32,
)
    requires
        search_ok(cols, rows, blocked, start, end, best, prev, stamp, clock),
        state.x < cols && state.y < rows && state.dir < 4,
        best[state_index(cols, state.x as int, state.y as int, state.dir as int)] <= nc,
        0 <= d < 4,
        moved(state.x as int, state.y as int, d) == (nx, ny),
        0 <= nx < cols,
        0 <= ny < rows,
        cell_open(cols, blocked, start, end, (nx as usize, ny as usize)),
        nc < best[state_index(cols, nx, ny, d)],
    ensures
        search_ok(
            cols,
            rows,
            blocked,
            start,
            end,
            best.update(state_index(cols, nx, ny, d), nc),
            prev.update(state_index(cols, nx, ny, d), Some(state)),
            stamp.update(state_index(cols, nx, ny, d), clock),
            clock + 1,
        ),
{
    let ni = state_index(cols, nx, ny, d);
    let j = state_index(cols, state.x as int, state.y as int, state.dir as int);
    let best2 = best.update(ni, nc);
    let prev2 = prev.update(ni, Some(state));
    let stamp2 = stamp.update(ni, clock);
    lemma_state_index_bound(cols, rows, nx, ny, d);
    lemma_state_index_bound(cols, rows, state.x as int, state.y as int, state.dir as int);
    if j == ni {
        lemma_state_index_injective(cols, nx, ny, d, state.x as int, state.y as int, state.dir as int);
    }
    assert(state_ok(cols, rows, blocked, start, end, best, prev, stamp, clock, state.x as int, state.y as int, state.dir as int));
    assert forall|x: int, y: int, dd: int| 0 <= x < cols && 0 <= y < rows && 0 <= dd < 4 implies #[trigger] state_ok(
        cols,
        rows,
        blocked,
        start,
        end,
        best2,
        prev2,
        stamp2,
        clock + 1,
        x,
        y,
        dd,
    ) by {
        let i = state_index(cols, x, y, dd);
        lemma_state_index_bound(cols, rows, x, y, dd);
        assert(state_ok(cols, rows, blocked, start, end, best, prev, stamp, clock, x, y, dd));
        if i == ni {
            lemma_state_index_injective(cols, x, y, dd, nx, ny, d);
        } else {
            match prev[i] {
                Some(u) => {
                    let ju = state_index(cols, u.x as int, u.y as int, u.dir as int);
                    lemma_state_index_bound(cols, rows, u.x as int, u.y as int, u.dir as int);
                },
                None => {},
            }
        }
    }
}

/// The product of two counts, saturating at the ceiling.
pub open spec fn saturated_product(a: u32, b: u32) -> u32 {
    if a * b > u32::MAX {
        u32::MAX
    } else {
        (a * b) as u32
    }
}

/// The cost of a state reached from one of cost `cost`, entered by
/// direction `from_dir`, by a step in direction `d` into a cell of
/// crowding `weight`.
pub open spec fn stepped_cost(cost: u32, from_dir: int, d: int, weight: u16, step: u32, turn: u32, occw: u32) -> u32 {
    let a = cost.saturating_add(step);
    let b = if from_dir != d {
        a.saturating_add(turn)
    } else {
        a
    };
    if weight > 0 {
        b.saturating_add(saturated_product(weight as u32, occw))
    } else {
        b
    }
}

/// The most one step can cost.
pub open spec fn step_bound(step: u32, turn: u32, occw: u32) -> int {
    step + turn + 0xffff * occw
}

/// Direction of the step from cell `a` to the cell `b` beside it (0 up,
/// 1 down, 2 left, 3 right).
pub open spec fn step_dir(a: (usize, usize), b: (usize, usize)) -> int {
    if a.0 == b.0 && b.1 + 1 == a.1 {
        0
    } else if a.0 == b.0 {
        1
    } else if b.0 + 1 == a.0 {
        2
    } else {
        3
    }
}

/// The crowding of cell `c`.
pub open spec fn crowding(cols: int, occupancy: Seq<u16>, c: (usize, usize)) -> u16 {
    occupancy[c.1 * cols + c.0]
}

/// The cost after following the cells `s` from its first one, which was
/// entered by direction `d` at cost `c`: each step as `stepped_cost` says.
pub open spec fn cost_along(
    cols: int,
    occupancy: Seq<u16>,
    step: u32,
    turn: u32,
    occw: u32,
    c: u32,
    d: int,
    s: Seq<(usize, usize)>,
) -> u32
    decreases s.len(),
{
    if s.len() <= 1 {
        c
    } else {
        let d2 = step_dir(s[0], s[1]);
        cost_along(
            cols,
            occupancy,
            step,
            turn,
            occw,
            stepped_cost(c, d, d2, crowding(cols, occupancy, s[1]), step, turn, occw),
            d2,
            s.drop_first(),
        )
    }
}

/// The cost of the route `cells`: each step costs `step`, plus `turn` when
/// it changes direction (never on the first step), plus `occw` times the
/// crowding of the cell it enters, all saturating.
pub open spec fn route_cost(
    cols: int,
    occupancy: Seq<u16>,
    step: u32,
    turn: u32,
    occw: u32,
    cells: Seq<(usize, usize)>,
) -> u32 {
    cost_along(
        cols,
        occupancy,
        step,
        turn,
        occw,
        0,
        if cells.len() >= 2 {
            step_dir(cells[0], cells[1])
        } else {
            0
        },
        cells,
    )
}

/// The direction in which the last cell of `s` was entered, `d` for the
/// first.
pub open spec fn last_dir(d: int, s: Seq<(usize, usize)>) -> int {
    if s.len() <= 1 {
        d
    } else {
        step_dir(s[s.len() - 2], s[s.len() - 1])
    }
}

/// The estimate of the cost still to come from cell `(x, y)`: `step` per
/// cell of distance to `end`, capped at `u32::MAX`.
pub open spec fn remaining_estimate(end: (usize, usize), step: u32, x: int, y: int) -> int {
    let dist = (if x >= end.0 {
        x - end.0
    } else {
        end.0 - x
    }) + (if y >= end.1 {
        y - end.1
    } else {
        end.1 - y
    });
    if dist * step > u32::MAX {
        u32::MAX as int
    } else {
        dist * step
    }
}

proof fn lemma_stepped_mono(c1: u32, c2: u32, d0: int, d1: int, d: int, w: u16, step: u32, turn: u32, occw: u32)
    requires
        c1 <= c2,
        d1 == d || d0 == d1,
    ensures
        stepped_cost(c1, d1, d, w, step, turn, occw) <= stepped_cost(c2, d0, d, w, step, turn, occw),
{
}

proof fn lemma_stepped_grows(c: u32, d0: int, d: int, w: u16, step: u32, turn: u32, occw: u32)
    ensures
        stepped_cost(c, d0, d, w, step, turn, occw) >= (if c + step > u32::MAX {
            u32::MAX as int
        } else {
            c + step
        }),
{
}

proof fn lemma_cost_along_mono(
    cols: int,
    occupancy: Seq<u16>,
    step: u32,
    turn: u32,
    occw: u32,
    c1: u32,
    c2: u32,
    d: int,
    s: Seq<(usize, usize)>,
)
    requires
        c1 <= c2,
    ensures
        cost_along(cols, occupancy, step, turn, occw, c1, d, s) <= cost_along(cols, occupancy, step, turn, occw, c2, d, s),
    decreases s.len(),
{
    if s.len() > 1 {
        let d2 = step_dir(s[0], s[1]);
        let w = crowding(cols, occupancy, s[1]);
        lemma_stepped_mono(c1, c2, d, d, d2, w, step, turn, occw);
        lemma_cost_along_mono(
            cols,
            occupancy,
            step,
            turn,
            occw,
            stepped_cost(c1, d, d2, w, step, turn, occw),
            stepped_cost(c2, d, d2, w, step, turn, occw),
            d2,
            s.drop_first(),
        );
    }
}

/// Starting lower, and without a turn on the first step, costs no more.
proof fn lemma_cost_along_first(
    cols: int,
    occupancy: Seq<u16>,
    step: u32,
    turn: u32,
    occw: u32,
    c1: u32,
    c2: u32,
    d2: int,
    s: Seq<(usize, usize)>,
)
    requires
        c1 <= c2,
        s.len() >= 2,
    ensures
        cost_along(cols, occupancy, step, turn, occw, c1, step_dir(s[0], s[1]), s) <= cost_along(
            cols,
            occupancy,
            step,
            turn,
            occw,
            c2,
            d2,
            s,
        ),
{
    let d = step_dir(s[0], s[1]);
    let w = crowding(cols, occupancy, s[1]);
    lemma_stepped_mono(c1, c2, d2, d, d, w, step, turn, occw);
    lemma_cost_along_mono(
        cols,
        occupancy,
        step,
        turn,
        occw,
        stepped_cost(c1, d, d, w, step, turn, occw),
        stepped_cost(c2, d2, d, w, step, turn, occw),
        d,
        s.drop_first(),
    );
}

/// One more cell at the end adds one more step.
proof fn lemma_cost_along_push(
    cols: int,
    occupancy: Seq<u16>,
    step: u32,
    turn: u32,
    occw: u32,
    c: u32,
    d: int,
    s: Seq<(usize, usize)>,
    x: (usize, usize),
)
    requires
        s.len() >= 1,
    ensures
        cost_along(cols, occupancy, step, turn, occw, c, d, s.push(x)) == stepped_cost(
            cost_along(cols, occupancy, step, turn, occw, c, d, s),
            last_dir(d, s),
            step_dir(s[s.len() - 1], x),
            crowding(cols, occupancy, x),
            step,
            turn,
            occw,
        ),
    decreases s.len(),
{
    let t = s.push(x);
    if s.len() == 1 {
        assert(t.drop_first() =~= seq![x]);
        assert(t[0] == s[0] && t[1] == x);
        let c2 = stepped_cost(c, d, step_dir(s[0], x), crowding(cols, occupancy, x), step, turn, occw);
        assert(cost_along(cols, occupancy, step, turn, occw, c2, step_dir(s[0], x), t.drop_first()) == c2);
        assert(cost_along(cols, occupancy, step, turn, occw, c, d, s) == c);
    } else {
        let d2 = step_dir(s[0], s[1]);
        let c2 = stepped_cost(c, d, d2, crowding(cols, occupancy, s[1]), step, turn, occw);
        assert(t[0] == s[0] && t[1] == s[1]);
        assert(t.drop_first() =~= s.drop_first().push(x));
        lemma_cost_along_push(cols, occupancy, step, turn, occw, c2, d2, s.drop_first(), x);
        assert(s.drop_first()[s.drop_first().len() - 1] == s[s.len() - 1]);
        if s.len() > 2 {
            assert(s.drop_first()[s.drop_first().len() - 2] == s[s.len() - 2]);
        } else {
            assert(last_dir(d, s) == d2);
        }
        assert(cost_along(cols, occupancy, step, turn, occw, c, d, t) == cost_along(
            cols,
            occupancy,
            step,
            turn,
            occw,
            c2,
            d2,
            t.drop_first(),
        ));
    }
}

/// The number of states the search may take out of its queue: the four
/// start states, and one more each time a state's best cost falls, which
/// happens at most `n * step_bound + 1` times per state.
pub open spec fn search_budget(cols: int, rows: int, step: u32, turn: u32, occw: u32) -> int {
    let n = cols * rows * 4;
    4 + n * (n * step_bound(step, turn, occw) + 1)
}

proof fn lemma_next_cost_bound(cost: u32, from_dir: int, d: int, weight: u16, step: u32, turn: u32, occw: u32)
    ensures
        cost <= stepped_cost(cost, from_dir, d, weight, step, turn, occw) <= cost + step_bound(step, turn, occw),
{
    assert(saturated_product(weight as u32, occw) <= 0xffff * occw) by (nonlinear_arith)
        requires
            weight <= 0xffff,
            saturated_product(weight as u32, occw) <= weight * occw,
    ;
}

/// The saturating product of two counts.
fn saturating_product(a: u32, b: u32) -> (r: u32)
    ensures
        r == saturated_product(a, b),
{
    assert(a * b <= u32::MAX * u32::MAX) by (nonlinear_arith)
        requires
            a <= u32::MAX,
            b <= u32::MAX,
    ;
    let p: u64 = (a as u64) * (b as u64);
    if p > u32::MAX as u64 {
        u32::MAX
    } else {
        p as u32
    }
}

/// `|a - b|` for two positions.
fn distance(a: usize, b: usize) -> (r: usize)
    ensures
        r == (if a >= b { a - b } else { b - a }),
{
    if a >= b {
        a - b
    } else {
        b - a
    }
}


spec fn problem_of(
    cols: usize,
    rows: usize,
    blocked: Seq<bool>,
    occupancy: Seq<u16>,
    start: (usize, usize),
    end: (usize, usize),
    step: u32,
    turn: u32,
    occw: u32,
) -> Problem {
    Problem { cols: cols as int, rows: rows as int, blocked, occupancy, start, end, step, turn, occw }
}

/// Tries the step from `state` (queued at its best cost `cost`) in
/// direction `dir`: if it leads to an open cell of the grid more cheaply
/// than that state's best so far, records the new cost and link and queues
/// the state. `book` carries the proof's bookkeeping: link times, the
/// clock, expanded states, chains, and the number of states queued.
#[verifier::spinoff_prover]
#[verifier::rlimit(100)]
fn try_step(
    cols: usize,
    rows: usize,
    blocked: &Vec<bool>,
    occupancy: &Vec<u16>,
    start: (usize, usize),
    end: (usize, usize),
    step_cost: u32,
    turn_penalty: u32,
    occupancy_weight: u32,
    best_cost: &mut Vec<u32>,
    prev: &mut Vec<Option<GridState>>,
    queue: &mut Vec<GridEntry>,
    state: GridState,
    cost: u32,
    dir: u8,
    Ghost(book): Ghost<(Seq<nat>, nat, Seq<bool>, Seq<Seq<int>>, nat)>,
) -> (book2: Ghost<(Seq<nat>, nat, Seq<bool>, Seq<Seq<int>>, nat)>)
    requires
        cols * rows * 4 <= usize::MAX,
        blocked.len() == cols * rows,
        occupancy.len() == cols * rows,
        start.0 < cols && start.1 < rows,
        end.0 < cols && end.1 < rows,
        dir < 4,
        state.x < cols && state.y < rows && state.dir < 4,
        cost < u32::MAX,
        old(best_cost)@[state_index(cols as int, state.x as int, state.y as int, state.dir as int)] == cost,
        old(best_cost)@[state_index(cols as int, start.0 as int, start.1 as int, 0)] == 0,
        search_ok(cols as int, rows as int, blocked@, start, end, old(best_cost)@, old(prev)@, book.0, book.1),
        queue_ok(cols as int, rows as int, old(queue)@),
        progress(
            problem_of(cols, rows, blocked@, occupancy@, start, end, step_cost, turn_penalty, occupancy_weight),
            old(best_cost)@,
            book.2,
            book.3,
            old(queue)@,
            state_index(cols as int, state.x as int, state.y as int, state.dir as int),
        ),
        !book.2[state_index(cols as int, state.x as int, state.y as int, state.dir as int)],
        cost_capped(
            problem_of(cols, rows, blocked@, occupancy@, start, end, step_cost, turn_penalty, occupancy_weight),
            old(best_cost)@,
        ),
        book.4 <= potential(
            old(best_cost)@,
            cost_cap(problem_of(cols, rows, blocked@, occupancy@, start, end, step_cost, turn_penalty, occupancy_weight)),
            cols * rows * 4,
        ),
        est_ok(problem_of(cols, rows, blocked@, occupancy@, start, end, step_cost, turn_penalty, occupancy_weight), old(queue)@),
        links_cost_ok(
            problem_of(cols, rows, blocked@, occupancy@, start, end, step_cost, turn_penalty, occupancy_weight),
            old(best_cost)@,
            old(prev)@,
        ),
    ensures
        ({
            let g = problem_of(cols, rows, blocked@, occupancy@, start, end, step_cost, turn_penalty, occupancy_weight);
            let si = state_index(cols as int, state.x as int, state.y as int, state.dir as int);
            &&& final(best_cost)@[si] == cost
            &&& final(best_cost)@[state_index(cols as int, start.0 as int, start.1 as int, 0)] == 0
            &&& search_ok(cols as int, rows as int, blocked@, start, end, final(best_cost)@, final(prev)@, book2@.0, book2@.1)
            &&& queue_ok(cols as int, rows as int, final(queue)@)
            &&& progress(g, final(best_cost)@, book2@.2, book2@.3, final(queue)@, si)
            &&& !book2@.2[si]
            &&& cost_capped(g, final(best_cost)@)
            &&& book2@.4 <= potential(final(best_cost)@, cost_cap(g), cols * rows * 4)
            &&& final(queue)@.len() + book.4 <= old(queue)@.len() + book2@.4
            &&& relaxed(g, final(best_cost)@, state.x as int, state.y as int, state.dir as int, dir as int)
            &&& forall|dd: int|
                0 <= dd < 4 && relaxed(g, old(best_cost)@, state.x as int, state.y as int, state.dir as int, dd)
                    ==> #[trigger] relaxed(g, final(best_cost)@, state.x as int, state.y as int, state.dir as int, dd)
            &&& est_ok(g, final(queue)@)
            &&& links_cost_ok(g, final(best_cost)@, final(prev)@)
            &&& forall|m: int| 0 <= m < final(best_cost)@.len() ==> #[trigger] final(best_cost)@[m] <= old(best_cost)@[m]
            &&& final(best_cost)@.len() == old(best_cost)@.len()
        }),
{
    let ghost g = problem_of(cols, rows, blocked@, occupancy@, start, end, step_cost, turn_penalty, occupancy_weight);
    let ghost gcols = cols as int;
    let ghost grows = rows as int;
    let ghost si = state_index(gcols, state.x as int, state.y as int, state.dir as int);
    let ghost start0 = state_index(gcols, start.0 as int, start.1 as int, 0);
    let ghost best0 = best_cost@;
    proof {
        lemma_state_index_bound(gcols, grows, state.x as int, state.y as int, state.dir as int);
        assert(cols <= cols * rows && rows <= cols * rows) by (nonlinear_arith)
            requires
                cols >= 1,
                rows >= 1,
        ;
        assert(grid_shape_ok(g));
        assert forall|dd: int|
            0 <= dd < 4 && relaxed(g, best0, state.x as int, state.y as int, state.dir as int, dd) implies #[trigger] relaxed(
            g,
            best0,
            state.x as int,
            state.y as int,
            state.dir as int,
            dd,
        ) by {
        }
    }
    let (inside, nx, ny) = if dir == 0 {
        if state.y == 0 {
            (false, 0, 0)
        } else {
            (true, state.x, state.y - 1)
        }
    } else if dir == 1 {
        if state.y + 1 >= rows {
            (false, 0, 0)
        } else {
            (true, state.x, state.y + 1)
        }
    } else if dir == 2 {
        if state.x == 0 {
            (false, 0, 0)
        } else {
            (true, state.x - 1, state.y)
        }
    } else {
        if state.x + 1 >= cols {
            (false, 0, 0)
        } else {
            (true, state.x + 1, state.y)
        }
    };
    if !inside {
        return Ghost(book);
    }
    proof {
        lemma_state_index_bound(gcols, grows, nx as int, ny as int, dir as int);
    }
    let cell = ny * cols + nx;
    let is_end = nx == end.0 && ny == end.1;
    let is_start = nx == start.0 && ny == start.1;
    if !is_end && !is_start && blocked[cell] {
        return Ghost(book);
    }
    let mut next_cost = cost.saturating_add(step_cost);
    if state.dir != dir {
        next_cost = next_cost.saturating_add(turn_penalty);
    }
    let weight = occupancy[cell] as u32;
    if weight > 0 {
        next_cost = next_cost.saturating_add(saturating_product(weight, occupancy_weight));
    }
    proof {
        assert(next_cost == stepped_cost(
            cost,
            state.dir as int,
            dir as int,
            occupancy@[cell as int],
            step_cost,
            turn_penalty,
            occupancy_weight,
        ));
    }
    let next_idx = cell * 4 + dir as usize;
    if next_cost >= best_cost[next_idx] {
        return Ghost(book);
    }
    let manhattan = distance(nx, end.0) as u128 + distance(ny, end.1) as u128;
    assert(manhattan * step_cost <= 0x2_0000_0000_0000_0000 * 0x1_0000_0000) by (nonlinear_arith)
        requires
            manhattan <= 0x2_0000_0000_0000_0000,
            step_cost <= 0x1_0000_0000,
    ;
    let remaining = manhattan * (step_cost as u128);
    let remaining = if remaining > u32::MAX as u128 {
        u32::MAX
    } else {
        remaining as u32
    };
    let est = next_cost.saturating_add(remaining);
    proof {
        assert(next_cost < u32::MAX);
        lemma_state_index_bound(gcols, grows, start.0 as int, start.1 as int, 0);
        if next_idx as int == start0 {
            assert(best_cost@[start0] == 0);
            assert(false);
        }
        lemma_relax(
            gcols,
            grows,
            blocked@,
            start,
            end,
            best_cost@,
            prev@,
            book.0,
            book.1,
            state,
            nx as int,
            ny as int,
            dir as int,
            next_cost,
        );
        lemma_progress_relax(g, best_cost@, book.2, book.3, queue@, state, nx as int, ny as int, dir as int, next_cost, est);
        lemma_potential_update(best_cost@, cost_cap(g), cols * rows * 4, next_idx as int, next_cost);
        if next_idx as int == si {
            lemma_state_index_injective(
                gcols,
                nx as int,
                ny as int,
                dir as int,
                state.x as int,
                state.y as int,
                state.dir as int,
            );
        }
    }
    let ghost bb = best_cost@;
    let ghost pb = prev@;
    best_cost.set(next_idx, next_cost);
    prev.set(next_idx, Some(state));
    proof {
        assert(remaining == remaining_estimate(end, step_cost, nx as int, ny as int));
        assert(crowding(gcols, occupancy@, (nx, ny)) == occupancy@[cell as int]);
        assert forall|x: int, y: int, d: int| 0 <= x < gcols && 0 <= y < grows && 0 <= d < 4 implies #[trigger] link_cost_ok(
            g,
            best_cost@,
            prev@,
            x,
            y,
            d,
        ) by {
            let i = state_index(gcols, x, y, d);
            lemma_state_index_bound(gcols, grows, x, y, d);
            if i == next_idx {
                lemma_state_index_injective(gcols, x, y, d, nx as int, ny as int, dir as int);
                assert(best_cost@[si] == cost);
            } else {
                assert(link_cost_ok(g, bb, pb, x, y, d));
                assert(state_ok(gcols, grows, blocked@, start, end, bb, pb, book.0, book.1, x, y, d));
                match pb[i] {
                    Some(u) => {
                        let j = state_index(gcols, u.x as int, u.y as int, u.dir as int);
                        lemma_state_index_bound(gcols, grows, u.x as int, u.y as int, u.dir as int);
                        lemma_stepped_mono(
                            best_cost@[j],
                            bb[j],
                            u.dir as int,
                            u.dir as int,
                            d,
                            crowding(gcols, occupancy@, (x as usize, y as usize)),
                            step_cost,
                            turn_penalty,
                            occupancy_weight,
                        );
                    },
                    None => {},
                }
            }
        }
    }
    let ghost q1 = queue@;
    proof {
        assert(q1 == old(queue)@);
        assert(queue_ok(gcols, grows, q1));
        assert(nx < cols && ny < rows && dir < 4);
    }
    let entry = GridEntry { est, cost: next_cost, state: GridState { x: nx, y: ny, dir } };
    queue.push(entry);
    proof {
        assert forall|k: int| 0 <= k < queue@.len() implies #[trigger] queue@[k].state.x < gcols && queue@[k].state.y
            < grows && queue@[k].state.dir < 4 && queue@[k].cost < u32::MAX by {
            if k < q1.len() {
                assert(queue@[k] == q1[k]);
                assert(q1[k].state.x < gcols);
            } else {
                assert(queue@[k] == entry);
            }
        }
    }
    Ghost(
        (
            book.0.update(next_idx as int, book.1),
            book.1 + 1,
            book.2.update(next_idx as int, false),
            book.3.update(next_idx as int, book.3[si].push(next_idx as int)),
            book.4 + 1,
        ),
    )
}

/// The best-first search for a route of cells from `start` to `end` on a
/// grid of `cols` by `rows` cells, numbered row by row. `blocked` marks the
/// cells that obstacles cover (the start and end cells are always open);
/// `occupancy` gives each cell's crowding by routes already laid. A step
/// costs `step_cost`, plus `turn_penalty` when it changes direction, plus
/// `occupancy_weight` times the entered cell's crowding (all saturating).
/// States are taken out by least estimate (cost plus `step_cost` per cell
/// of remaining distance), then least cost, then larger row, column and
/// direction; the search gives up after `max_steps` of them. The route
/// found, if any, leads from `start` to `end` through open cells, each
/// sharing a side with the next, and costs no more (`route_cost`) than any
/// other such route; there is none when no such route exists.
/// When one exists, a route is found as long as no cost can reach the
/// ceiling (`cols * rows * 4` steps of the dearest kind stay below it) and
/// `max_steps` is at least `search_budget`.
pub fn route_edge_with_grid(
    cols: usize,
    rows: usize,
    blocked: &Vec<bool>,
    occupancy: &Vec<u16>,
    start: (usize, usize),
    end: (usize, usize),
    step_cost: u32,
    turn_penalty: u32,
    occupancy_weight: u32,
    max_steps: usize,
) -> (route: Option<Vec<(usize, usize)>>)
    requires
        cols * rows * 4 <= usize::MAX,
        blocked.len() == cols * rows,
        occupancy.len() == cols * rows,
        start.0 < cols && start.1 < rows,
        end.0 < cols && end.1 < rows,
    ensures
        route matches Some(cells) ==> is_grid_route(cols as int, rows as int, blocked@, start, end, cells@),
        !grid_route_exists(cols as int, rows as int, blocked@, start, end) ==> route is None,
        start == end && max_steps >= 1 ==> (route matches Some(cells) && cells@ == seq![start]),
        route matches Some(cells) ==> forall|other: Seq<(usize, usize)>|
            #[trigger] is_grid_route(cols as int, rows as int, blocked@, start, end, other) ==> route_cost(
                cols as int,
                occupancy@,
                step_cost,
                turn_penalty,
                occupancy_weight,
                cells@,
            ) <= route_cost(cols as int, occupancy@, step_cost, turn_penalty, occupancy_weight, other),
        grid_route_exists(cols as int, rows as int, blocked@, start, end) && cols * rows * 4 * step_bound(
            step_cost,
            turn_penalty,
            occupancy_weight,
        ) < u32::MAX && max_steps >= search_budget(cols as int, rows as int, step_cost, turn_penalty, occupancy_weight)
            ==> route is Some,
{
    let ghost gcols = cols as int;
    let ghost grows = rows as int;
    let n_states = cols * rows * 4;
    let mut best_cost: Vec<u32> = Vec::new();
    let mut prev: Vec<Option<GridState>> = Vec::new();
    let mut i: usize = 0;
    while i < n_states
        invariant
            i <= n_states,
            best_cost.len() == i,
            prev.len() == i,
            forall|j: int| 0 <= j < i ==> #[trigger] best_cost@[j] == u32::MAX,
            forall|j: int| 0 <= j < i ==> #[trigger] prev@[j] is None,
        decreases n_states - i,
    {
        best_cost.push(u32::MAX);
        prev.push(None);
        i += 1;
    }
    let ghost mut stamp: Seq<nat> = Seq::new(n_states as nat, |j: int| 0nat);
    let ghost mut clock: nat = 1;
    proof {
        lemma_state_index_bound(gcols, grows, start.0 as int, start.1 as int, 0);
    }
    let start_cell = start.1 * cols + start.0;
    let mut queue: Vec<GridEntry> = Vec::new();
    let mut d: u8 = 0;
    while d < 4
        invariant
            d <= 4,
            n_states == cols * rows * 4,
            start_cell == start.1 * cols + start.0,
            start_cell < cols * rows,
            best_cost.len() == n_states,
            prev.len() == n_states,
            forall|j: int| 0 <= j < n_states ==> #[trigger] prev@[j] is None,
            forall|j: int|
                0 <= j < n_states && #[trigger] best_cost@[j] < u32::MAX ==> start_cell * 4 <= j < start_cell * 4
                    + d,
            forall|dd: int| 0 <= dd < d ==> #[trigger] best_cost@[start_cell * 4 + dd] == 0,
            queue@.len() == d,
            forall|k: int|
                0 <= k < d ==> #[trigger] queue@[k].state.x == start.0 && queue@[k].state.y == start.1
                    && queue@[k].state.dir == k && queue@[k].cost == 0 && queue@[k].est == 0,
        decreases 4 - d,
    {
        let idx = start_cell * 4 + d as usize;
        best_cost.set(idx, 0);
        queue.push(GridEntry { est: 0, cost: 0, state: GridState { x: start.0, y: start.1, dir: d } });
        d += 1;
    }
    proof {
        assert forall|x: int, y: int, dd: int| 0 <= x < gcols && 0 <= y < grows && 0 <= dd < 4 implies #[trigger] state_ok(
            gcols,
            grows,
            blocked@,
            start,
            end,
            best_cost@,
            prev@,
            stamp,
            clock,
            x,
            y,
            dd,
        ) by {
            let j = state_index(gcols, x, y, dd);
            lemma_state_index_bound(gcols, grows, x, y, dd);
            if best_cost@[j] < u32::MAX {
                let d0 = j - start_cell * 4;
                lemma_state_index_injective(gcols, x, y, dd, start.0 as int, start.1 as int, d0);
            }
        }
        assert forall|k: int| 0 <= k < queue@.len() implies best_cost@[state_index(
            gcols,
            queue@[k].state.x as int,
            queue@[k].state.y as int,
            queue@[k].state.dir as int,
        )] == 0 by {
            assert(best_cost@[start_cell * 4 + k] == 0);
        }
    }
    let ghost g = problem_of(cols, rows, blocked@, occupancy@, start, end, step_cost, turn_penalty, occupancy_weight);
    let ghost cap = cost_cap(g);
    let ghost mut settled: Seq<bool> = Seq::new(n_states as nat, |j: int| false);
    let ghost mut paths: Seq<Seq<int>> = Seq::new(n_states as nat, |j: int| seq![j]);
    let ghost mut pushes: nat = 0;
    proof {
        assert(0 <= cap) by (nonlinear_arith)
            requires
                cap == (cols * rows * 4) * step_bound(step_cost, turn_penalty, occupancy_weight),
                cols * rows * 4 >= 0,
                step_bound(step_cost, turn_penalty, occupancy_weight) >= 0,
        ;
        assert(cols <= cols * rows && rows <= cols * rows) by (nonlinear_arith)
            requires
                cols >= 1,
                rows >= 1,
        ;
        assert(grid_shape_ok(g));
        assert forall|x: int, y: int, dd: int| 0 <= x < gcols && 0 <= y < grows && 0 <= dd < 4 implies #[trigger] progress_ok(
            g,
            best_cost@,
            settled,
            paths,
            queue@,
            -1,
            x,
            y,
            dd,
        ) by {
            let j = state_index(gcols, x, y, dd);
            lemma_state_index_bound(gcols, grows, x, y, dd);
            if best_cost@[j] < u32::MAX {
                let d0 = j - start_cell * 4;
                lemma_state_index_injective(gcols, x, y, dd, start.0 as int, start.1 as int, d0);
                assert(entry_is(queue@[d0], x, y, dd, 0));
                assert(paths[j] == seq![j]);
            }
        }
        assert forall|j: int| 0 <= j < best_cost@.len() && #[trigger] best_cost@[j] < u32::MAX implies best_cost@[j]
            <= cap by {
            let dd = j - start_cell * 4;
            assert(best_cost@[start_cell * 4 + dd] == 0);
        }
        lemma_potential_bounds(best_cost@, cap, n_states as int);
        assert(best_cost@[start_cell * 4 + 0] == 0);
        assert forall|k: int| 0 <= k < queue@.len() implies (#[trigger] queue@[k]).cost <= queue@[k].est && queue@[k].est <= (if queue@[k].cost
            + remaining_estimate(g.end, g.step, queue@[k].state.x as int, queue@[k].state.y as int) > u32::MAX {
            u32::MAX as int
        } else {
            queue@[k].cost + remaining_estimate(g.end, g.step, queue@[k].state.x as int, queue@[k].state.y as int)
        }) by {
            assert(queue@[k].cost == 0 && queue@[k].est == 0);
        }
        assert(est_ok(g, queue@));
        assert forall|x: int, y: int, dd: int| 0 <= x < g.cols && 0 <= y < g.rows && 0 <= dd < 4 implies #[trigger] link_cost_ok(
            g,
            best_cost@,
            prev@,
            x,
            y,
            dd,
        ) by {
            lemma_state_index_bound(gcols, grows, x, y, dd);
        }
        assert forall|dd: int| 0 <= dd < 4 implies #[trigger] best_cost@[state_index(gcols, start.0 as int, start.1 as int, dd)] == 0 by {
            assert(state_index(gcols, start.0 as int, start.1 as int, dd) == start_cell * 4 + dd);
        }
    }
    let mut end_state: Option<GridState> = None;
    let mut steps: usize = 0;
    loop
        invariant_except_break
            end_state is None,
            steps == 0 ==> queue@.len() == 4 && forall|k: int|
                0 <= k < 4 ==> #[trigger] queue@[k].state.x == start.0 && queue@[k].state.y == start.1
                    && queue@[k].cost == 0 && best_cost@[state_index(
                    gcols,
                    queue@[k].state.x as int,
                    queue@[k].state.y as int,
                    queue@[k].state.dir as int,
                )] == 0,
            steps == 0 ==> forall|j: int| 0 <= j < prev@.len() ==> #[trigger] prev@[j] is None,
            start == end ==> steps == 0,
            progress(g, best_cost@, settled, paths, queue@, -1),
            queue@.len() + steps <= 4 + pushes,
        invariant
            n_states == cols * rows * 4,
            n_states <= usize::MAX,
            blocked.len() == cols * rows,
            occupancy.len() == cols * rows,
            start.0 < cols && start.1 < rows,
            end.0 < cols && end.1 < rows,
            gcols == cols,
            grows == rows,
            g == problem_of(cols, rows, blocked@, occupancy@, start, end, step_cost, turn_penalty, occupancy_weight),
            grid_shape_ok(g),
            cap == cost_cap(g),
            0 <= cap,
            start_cell == start.1 * cols + start.0,
            best_cost@[start_cell * 4 + 0] == 0,
            search_ok(gcols, grows, blocked@, start, end, best_cost@, prev@, stamp, clock),
            queue_ok(gcols, grows, queue@),
            cost_capped(g, best_cost@),
            pushes <= potential(best_cost@, cap, n_states as int),
            steps <= max_steps,
            end_state matches Some(s) ==> s.x == end.0 && s.y == end.1 && s.dir < 4 && best_cost@[state_index(
                gcols,
                s.x as int,
                s.y as int,
                s.dir as int,
            )] < u32::MAX,
            est_ok(g, queue@),
            links_cost_ok(g, best_cost@, prev@),
            forall|dd: int| 0 <= dd < 4 ==> #[trigger] best_cost@[state_index(gcols, start.0 as int, start.1 as int, dd)] == 0,
        ensures
            end_state matches Some(s) ==> forall|cells: Seq<(usize, usize)>|
                #[trigger] is_grid_route(gcols, grows, blocked@, start, end, cells) ==> best_cost@[state_index(
                    gcols,
                    s.x as int,
                    s.y as int,
                    s.dir as int,
                )] <= route_cost(gcols, occupancy@, step_cost, turn_penalty, occupancy_weight, cells),
            start == end && max_steps >= 1 ==> (end_state matches Some(s) && prev@[state_index(
                gcols,
                s.x as int,
                s.y as int,
                s.dir as int,
            )] is None),
            grid_route_exists(gcols, grows, blocked@, start, end) && cap < u32::MAX && max_steps >= search_budget(
                gcols,
                grows,
                step_cost,
                turn_penalty,
                occupancy_weight,
            ) ==> end_state is Some,
        decreases max_steps - steps,
    {
        if queue.len() == 0 {
            proof {
                assert(queue@ =~= Seq::<GridEntry>::empty());
                if cap < u32::MAX {
                    lemma_drained_no_route(g, best_cost@, settled, paths);
                }
            }
            break;
        }
        let ghost q0 = queue@;
        let entry = pop_first(&mut queue);
        let ghost pi = choose|i: int|
            0 <= i < q0.len() && entry == q0[i] && queue@ == q0.update(i, q0.last()).drop_last();
        if steps >= max_steps {
            proof {
                lemma_potential_bounds(best_cost@, cap, n_states as int);
                assert((n_states as int) * (cap + 1) + 4 == search_budget(
                    gcols,
                    grows,
                    step_cost,
                    turn_penalty,
                    occupancy_weight,
                ));
            }
            break;
        }
        steps += 1;
        let cost = entry.cost;
        let state = entry.state;
        proof {
            lemma_state_index_bound(gcols, grows, state.x as int, state.y as int, state.dir as int);
        }
        let state_idx = (state.y * cols + state.x) * 4 + state.dir as usize;
        proof {
            lemma_est_ok_pop(g, q0, pi);
        }
        if cost != best_cost[state_idx] {
            proof {
                lemma_pop_stale(g, best_cost@, settled, paths, q0, pi);
            }
            continue;
        }
        if state.x == end.0 && state.y == end.1 {
            proof {
                assert forall|cells: Seq<(usize, usize)>|
                    #[trigger] is_grid_route(gcols, grows, blocked@, start, end, cells) implies best_cost@[state_idx as int]
                    <= route_cost(gcols, occupancy@, step_cost, turn_penalty, occupancy_weight, cells) by {
                    if route_cost(gcols, occupancy@, step_cost, turn_penalty, occupancy_weight, cells) < u32::MAX {
                        let d1 = if cells.len() >= 2 {
                            step_dir(cells[0], cells[1])
                        } else {
                            0
                        };
                        assert(cells.take(1) =~= seq![cells[0]]);
                        assert(prefix_cost(g, cells, 0) == 0);
                        assert(prefix_dir(cells, 0) == d1);
                        assert(0 <= d1 < 4);
                        assert(cells[0] == start);
                        lemma_frontier(g, best_cost@, settled, paths, q0, cells, 0);
                        let f = choose|k: int| 0 <= k < q0.len() && (#[trigger] q0[k]).est <= route_cost(
                            gcols,
                            occupancy@,
                            step_cost,
                            turn_penalty,
                            occupancy_weight,
                            cells,
                        );
                        assert(!leaves_before(q0[f], entry));
                        assert(entry == q0[pi]);
                        assert(q0[pi].cost <= q0[pi].est);
                    }
                }
            }
            end_state = Some(state);
            break;
        }
        proof {
            lemma_pop_fresh(g, best_cost@, settled, paths, q0, pi);
            settled = settled.update(state_idx as int, false);
        }
        let mut dir: u8 = 0;
        while dir < 4
            invariant
                dir <= 4,
                n_states == cols * rows * 4,
                n_states <= usize::MAX,
                blocked.len() == cols * rows,
                occupancy.len() == cols * rows,
                start.0 < cols && start.1 < rows,
                end.0 < cols && end.1 < rows,
                gcols == cols,
                grows == rows,
                g == problem_of(cols, rows, blocked@, occupancy@, start, end, step_cost, turn_penalty, occupancy_weight),
                grid_shape_ok(g),
                cap == cost_cap(g),
                start_cell == start.1 * cols + start.0,
                best_cost@[start_cell * 4 + 0] == 0,
                search_ok(gcols, grows, blocked@, start, end, best_cost@, prev@, stamp, clock),
                queue_ok(gcols, grows, queue@),
                state.x < cols && state.y < rows && state.dir < 4,
                state_idx == state_index(gcols, state.x as int, state.y as int, state.dir as int),
                state_idx < n_states,
                best_cost@[state_idx as int] == cost,
                cost < u32::MAX,
                !(state.x == end.0 && state.y == end.1),
                progress(g, best_cost@, settled, paths, queue@, state_idx as int),
                !settled[state_idx as int],
                cost_capped(g, best_cost@),
                pushes <= potential(best_cost@, cap, n_states as int),
                queue@.len() + steps <= 4 + pushes,
                forall|dd: int| 0 <= dd < dir ==> #[trigger] relaxed(
                    g,
                    best_cost@,
                    state.x as int,
                    state.y as int,
                    state.dir as int,
                    dd,
                ),
                est_ok(g, queue@),
                links_cost_ok(g, best_cost@, prev@),
                forall|dd: int| 0 <= dd < 4 ==> #[trigger] best_cost@[state_index(gcols, start.0 as int, start.1 as int, dd)] == 0,
            decreases 4 - dir,
        {
            proof {
                assert(state_index(gcols, start.0 as int, start.1 as int, 0) == start_cell * 4 + 0);
            }
            let ghost b0 = (stamp, clock, settled, paths, pushes);
            let ghost best_before = best_cost@;
            let ghost qlen = queue@.len();
            let Ghost(b1) = try_step(
                cols,
                rows,
                blocked,
                occupancy,
                start,
                end,
                step_cost,
                turn_penalty,
                occupancy_weight,
                &mut best_cost,
                &mut prev,
                &mut queue,
                state,
                cost,
                dir,
                Ghost(b0),
            );
            proof {
                assert forall|dd: int| 0 <= dd < 4 implies #[trigger] best_cost@[state_index(gcols, start.0 as int, start.1 as int, dd)] == 0 by {
                    lemma_state_index_bound(gcols, grows, start.0 as int, start.1 as int, dd);
                    assert(best_cost@[state_index(gcols, start.0 as int, start.1 as int, dd)] <= best_before[state_index(gcols, start.0 as int, start.1 as int, dd)]);
                }
                stamp = b1.0;
                clock = b1.1;
                settled = b1.2;
                paths = b1.3;
                pushes = b1.4;
                assert forall|dd: int| 0 <= dd < dir + 1 implies #[trigger] relaxed(
                    g,
                    best_cost@,
                    state.x as int,
                    state.y as int,
                    state.dir as int,
                    dd,
                ) by {
                    if dd < dir {
                        assert(relaxed(g, best_before, state.x as int, state.y as int, state.dir as int, dd));
                    }
                }
            }
            dir += 1;
        }
        proof {
            lemma_progress_settle(g, best_cost@, settled, paths, queue@, state);
            settled = settled.update(state_idx as int, true);
        }
    }
    let found = match end_state {
        Some(s) => s,
        None => {
            return None;
        },
    };
    let ghost found_idx = state_index(gcols, found.x as int, found.y as int, found.dir as int);
    proof {
        lemma_state_index_bound(gcols, grows, found.x as int, found.y as int, found.dir as int);
    }
    let mut cells: Vec<(usize, usize)> = Vec::new();
    let mut cur = found;
    cells.push((cur.x, cur.y));
    loop
        invariant
            n_states == cols * rows * 4,
            blocked.len() == cols * rows,
            start.0 < cols && start.1 < rows,
            end.0 < cols && end.1 < rows,
            gcols == cols,
            grows == rows,
            search_ok(gcols, grows, blocked@, start, end, best_cost@, prev@, stamp, clock),
            cur.x < cols && cur.y < rows && cur.dir < 4,
            best_cost@[state_index(gcols, cur.x as int, cur.y as int, cur.dir as int)] < u32::MAX,
            cells@.len() >= 1,
            cells@[0] == end,
            cells@[cells@.len() - 1] == (cur.x, cur.y),
            forall|t: int|
                0 <= t < cells@.len() ==> #[trigger] cells@[t].0 < cols && cells@[t].1 < rows && cell_open(
                    gcols,
                    blocked@,
                    start,
                    end,
                    cells@[t],
                ),
            forall|t: int| 0 <= t < cells@.len() - 1 ==> adjacent(#[trigger] cells@[t], cells@[t + 1]),
            found_idx == state_index(gcols, found.x as int, found.y as int, found.dir as int),
            0 <= found_idx < n_states,
            prev@[found_idx] is None ==> cells@.len() == 1 && cur == found,
            g == problem_of(cols, rows, blocked@, occupancy@, start, end, step_cost, turn_penalty, occupancy_weight),
            links_cost_ok(g, best_cost@, prev@),
            cost_along(gcols, occupancy@, step_cost, turn_penalty, occupancy_weight, best_cost@[state_index(
                gcols,
                cur.x as int,
                cur.y as int,
                cur.dir as int,
            )], cur.dir as int, cells@.reverse()) <= best_cost@[found_idx],
        ensures
            cost_along(gcols, occupancy@, step_cost, turn_penalty, occupancy_weight, best_cost@[state_index(
                gcols,
                cur.x as int,
                cur.y as int,
                cur.dir as int,
            )], cur.dir as int, cells@.reverse()) <= best_cost@[found_idx],
            cur.x == start.0 && cur.y == start.1,
            cells@.len() >= 1,
            cells@[0] == end,
            cells@[cells@.len() - 1] == start,
            forall|t: int|
                0 <= t < cells@.len() ==> #[trigger] cells@[t].0 < cols && cells@[t].1 < rows && cell_open(
                    gcols,
                    blocked@,
                    start,
                    end,
                    cells@[t],
                ),
            forall|t: int| 0 <= t < cells@.len() - 1 ==> adjacent(#[trigger] cells@[t], cells@[t + 1]),
            prev@[found_idx] is None ==> cells@.len() == 1,
        decreases
            best_cost@[state_index(gcols, cur.x as int, cur.y as int, cur.dir as int)],
            stamp[state_index(gcols, cur.x as int, cur.y as int, cur.dir as int)],
    {
        proof {
            lemma_state_index_bound(gcols, grows, cur.x as int, cur.y as int, cur.dir as int);
            assert(state_ok(
                gcols,
                grows,
                blocked@,
                start,
                end,
                best_cost@,
                prev@,
                stamp,
                clock,
                cur.x as int,
                cur.y as int,
                cur.dir as int,
            ));
        }
        let cur_idx = (cur.y * cols + cur.x) * 4 + cur.dir as usize;
        match prev[cur_idx] {
            Some(p) => {
                let ghost c0 = cells@;
                let ghost old_cur = cur;
                proof {
                    assert(cur_idx as int == state_index(gcols, cur.x as int, cur.y as int, cur.dir as int));
                    if prev@[found_idx] is None {
                        assert(cur_idx as int == found_idx);
                        assert(prev@[cur_idx as int] == Some(p));
                    }
                    assert(state_ok(
                        gcols,
                        grows,
                        blocked@,
                        start,
                        end,
                        best_cost@,
                        prev@,
                        stamp,
                        clock,
                        p.x as int,
                        p.y as int,
                        p.dir as int,
                    ));
                    lemma_state_index_bound(gcols, grows, p.x as int, p.y as int, p.dir as int);
                }
                let ghost old_best = best_cost@[state_index(gcols, old_cur.x as int, old_cur.y as int, old_cur.dir as int)];
                cur = p;
                cells.push((cur.x, cur.y));
                proof {
                    let r0 = c0.reverse();
                    let r1 = cells@.reverse();
                    let pc = (p.x, p.y);
                    let oc = (old_cur.x, old_cur.y);
                    assert(r1 =~= seq![pc] + r0);
                    assert(r0[0] == oc);
                    assert(r1[0] == pc && r1[1] == oc);
                    assert(r1.drop_first() =~= r0);
                    lemma_step_dir_moved(pc, oc, old_cur.dir as int);
                    assert(link_cost_ok(g, best_cost@, prev@, old_cur.x as int, old_cur.y as int, old_cur.dir as int));
                    let pb = best_cost@[state_index(gcols, p.x as int, p.y as int, p.dir as int)];
                    let w = crowding(gcols, occupancy@, oc);
                    let st = stepped_cost(pb, p.dir as int, old_cur.dir as int, w, step_cost, turn_penalty, occupancy_weight);
                    assert(st <= old_best);
                    lemma_cost_along_mono(gcols, occupancy@, step_cost, turn_penalty, occupancy_weight, st, old_best, old_cur.dir as int, r0);
                    assert forall|t: int| 0 <= t < cells@.len() - 1 implies adjacent(#[trigger] cells@[t], cells@[t + 1]) by {
                        if t < c0.len() - 1 {
                            assert(cells@[t] == c0[t] && cells@[t + 1] == c0[t + 1]);
                        } else {
                            assert(cells@[t] == (old_cur.x, old_cur.y));
                        }
                    }
                    assert forall|t: int|
                        0 <= t < cells@.len() implies #[trigger] cells@[t].0 < cols && cells@[t].1 < rows && cell_open(
                        gcols,
                        blocked@,
                        start,
                        end,
                        cells@[t],
                    ) by {
                        if t < c0.len() {
                            assert(cells@[t] == c0[t]);
                        }
                    }
                }
            },
            None => {
                break;
            },
        }
    }
    proof {
        assert(links_cost_ok(g, best_cost@, prev@));
    }
    let mut route: Vec<(usize, usize)> = Vec::new();
    let mut k: usize = cells.len();
    while k > 0
        invariant
            k <= cells.len(),
            route@.len() == cells.len() - k,
            forall|t: int| 0 <= t < route@.len() ==> route@[t] == cells@[cells.len() - 1 - t],
        decreases k,
    {
        k -= 1;
        route.push(cells[k]);
    }
    proof {
        let len = cells@.len() as int;
        assert forall|t: int| 0 <= t < route@.len() implies #[trigger] route@[t].0 < cols && route@[t].1 < rows
            && cell_open(gcols, blocked@, start, end, route@[t]) by {
            assert(route@[t] == cells@[len - 1 - t]);
        }
        assert forall|t: int| 0 <= t < route@.len() - 1 implies adjacent(#[trigger] route@[t], route@[t + 1]) by {
            assert(route@[t] == cells@[len - 1 - t]);
            assert(route@[t + 1] == cells@[len - 2 - t]);
            assert(adjacent(cells@[len - 2 - t], cells@[len - 1 - t]));
        }
        assert(is_grid_route(gcols, grows, blocked@, start, end, route@));
        if start == end && max_steps >= 1 {
            assert(route@ =~= seq![start]);
        }
        assert(route@ =~= cells@.reverse());
        let cb = best_cost@[state_index(gcols, cur.x as int, cur.y as int, cur.dir as int)];
        if route@.len() >= 2 {
            lemma_cost_along_first(gcols, occupancy@, step_cost, turn_penalty, occupancy_weight, 0, cb, cur.dir as int, route@);
        }
        assert(route_cost(gcols, occupancy@, step_cost, turn_penalty, occupancy_weight, route@) <= best_cost@[found_idx]);
    }
    Some(route)
}
} // verus!
