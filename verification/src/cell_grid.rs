//! A spatial index on grid cells: each cell lists the obstacles that were
//! entered over it, and a query over a block of cells gathers them.  Turning
//! positions into cells is left to the caller.
use vstd::prelude::*;

verus! {

/// For each grid cell, the indices of the obstacles entered over it.
pub struct CellGrid {
    pub cells: Vec<((i32, i32), Vec<usize>)>,
}

/// Position of the first entry for cell `key`.
pub open spec fn first_cell(cells: Seq<((i32, i32), Vec<usize>)>, key: (i32, i32)) -> Option<int>
    decreases cells.len(),
{
    if cells.len() == 0 {
        None
    } else {
        match first_cell(cells.drop_last(), key) {
            Some(p) => Some(p),
            None => if cells.last().0 == key {
                Some(cells.len() - 1)
            } else {
                None
            },
        }
    }
}

pub proof fn lemma_first_cell(cells: Seq<((i32, i32), Vec<usize>)>, key: (i32, i32))
    ensures
        match first_cell(cells, key) {
            Some(p) => 0 <= p < cells.len() && cells[p].0 == key && forall|q: int|
                0 <= q < p ==> (#[trigger] cells[q]).0 != key,
            None => forall|q: int| 0 <= q < cells.len() ==> (#[trigger] cells[q]).0 != key,
        },
    decreases cells.len(),
{
    if cells.len() > 0 {
        lemma_first_cell(cells.drop_last(), key);
        assert forall|q: int| 0 <= q < cells.len() - 1 implies cells.drop_last()[q] == cells[q] by {}
    }
}

/// Lookups depend on the entries' cells alone.
pub proof fn lemma_first_cell_same_keys(
    c0: Seq<((i32, i32), Vec<usize>)>,
    c1: Seq<((i32, i32), Vec<usize>)>,
    key: (i32, i32),
)
    requires
        c0.len() == c1.len(),
        forall|q: int| 0 <= q < c0.len() ==> (#[trigger] c0[q]).0 == c1[q].0,
    ensures
        first_cell(c0, key) == first_cell(c1, key),
    decreases c0.len(),
{
    if c0.len() > 0 {
        lemma_first_cell_same_keys(c0.drop_last(), c1.drop_last(), key);
    }
}

/// The obstacles listed for cell `key`: those of its first entry, or none.
pub open spec fn cell_list(cells: Seq<((i32, i32), Vec<usize>)>, key: (i32, i32)) -> Seq<usize> {
    match first_cell(cells, key) {
        Some(p) => cells[p].1@,
        None => Seq::empty(),
    }
}

/// Cell `key` lies in the block from `(x0, y0)` to `(x1, y1)`, both included.
pub open spec fn in_block(key: (i32, i32), x0: i32, y0: i32, x1: i32, y1: i32) -> bool {
    x0 <= key.0 <= x1 && y0 <= key.1 <= y1
}

/// Obstacle `k` is listed for some cell of the block.
pub open spec fn listed_in_block(cells: Seq<((i32, i32), Vec<usize>)>, k: usize, x0: i32, y0: i32, x1: i32, y1: i32) -> bool {
    exists|key: (i32, i32)| in_block(key, x0, y0, x1, y1) && #[trigger] cell_list(cells, key).contains(k)
}

/// The obstacles listed for the cells `(ix, y0)` up to `(ix, iy - 1)`, in
/// that order.
pub open spec fn column_scan(g: CellGrid, ix: int, y0: int, iy: int) -> Seq<usize>
    decreases iy - y0,
{
    if iy <= y0 {
        Seq::empty()
    } else {
        column_scan(g, ix, y0, iy - 1) + g.cell((ix as i32, (iy - 1) as i32))
    }
}

/// The obstacles listed for the cells of rows `y0` to `y1` in the columns
/// `x0` up to `ix - 1`, column by column.
pub open spec fn block_scan(g: CellGrid, x0: int, y0: int, ix: int, y1: int) -> Seq<usize>
    decreases ix - x0,
{
    if ix <= x0 {
        Seq::empty()
    } else {
        block_scan(g, x0, y0, ix - 1, y1) + column_scan(g, ix - 1, y0, y1 + 1)
    }
}

/// `s` with every repeat after the first left out.
pub open spec fn first_occurrences(s: Seq<usize>) -> Seq<usize>
    decreases s.len(),
{
    if s.len() == 0 {
        Seq::empty()
    } else if first_occurrences(s.drop_last()).contains(s.last()) {
        first_occurrences(s.drop_last())
    } else {
        first_occurrences(s.drop_last()).push(s.last())
    }
}

impl CellGrid {
    /// One entry per cell.
    pub open spec fn well_formed(&self) -> bool {
        forall|i: int, j: int| 0 <= i < j < self.cells@.len() ==> (#[trigger] self.cells@[i]).0 != (#[trigger] self.cells@[j]).0
    }

    /// The obstacles listed for cell `key`.
    pub open spec fn cell(&self, key: (i32, i32)) -> Seq<usize> {
        cell_list(self.cells@, key)
    }

    /// A grid with no obstacle.
    pub fn new() -> (g: CellGrid)
        ensures
            forall|key: (i32, i32)| #[trigger] g.cell(key) == Seq::<usize>::empty(),
            g.well_formed(),
    {
        CellGrid { cells: Vec::new() }
    }

    /// Position of the entry for cell `key`.
    fn find_cell(&self, key: (i32, i32)) -> (res: Option<usize>)
        ensures
            match res {
                Some(p) => p < self.cells.len() && first_cell(self.cells@, key) == Some(p as int),
                None => first_cell(self.cells@, key) is None,
            },
    {
        proof {
            lemma_first_cell(self.cells@, key);
        }
        let mut i: usize = 0;
        while i < self.cells.len()
            invariant
                i <= self.cells.len(),
                forall|p: int| 0 <= p < i ==> (#[trigger] self.cells@[p]).0 != key,
                match first_cell(self.cells@, key) {
                    Some(p) => 0 <= p < self.cells.len() && self.cells@[p].0 == key && forall|q: int|
                        0 <= q < p ==> (#[trigger] self.cells@[q]).0 != key,
                    None => forall|q: int|
                        0 <= q < self.cells.len() ==> (#[trigger] self.cells@[q]).0 != key,
                },
            decreases self.cells.len() - i,
        {
            if self.cells[i].0 .0 == key.0 && self.cells[i].0 .1 == key.1 {
                return Some(i);
            }
            i += 1;
        }
        None
    }

    /// Lists obstacle `idx` for the single cell `key`.
    fn add_to_cell(&mut self, idx: usize, key: (i32, i32))
        ensures
            final(self).cell(key) == old(self).cell(key).push(idx),
            forall|other: (i32, i32)| other != key ==> #[trigger] final(self).cell(other) == old(self).cell(other),
            old(self).well_formed() ==> final(self).well_formed(),
    {
        let ghost c0 = self.cells@;
        match self.find_cell(key) {
            Some(p) => {
                let mut list = self.cells[p].1.clone();
                list.push(idx);
                self.cells.set(p, (key, list));
                proof {
                    let c1 = self.cells@;
                    lemma_first_cell(c0, key);
                    assert forall|q: int| 0 <= q < c0.len() implies (#[trigger] c0[q]).0 == c1[q].0 by {}
                    assert forall|other: (i32, i32)| other != key implies #[trigger] cell_list(c1, other)
                        == cell_list(c0, other) by {
                        lemma_first_cell_same_keys(c0, c1, other);
                        lemma_first_cell(c0, other);
                    }
                    lemma_first_cell_same_keys(c0, c1, key);
                    assert forall|i: int, j: int| 0 <= i < j < c1.len() && old(self).well_formed() implies (#[trigger] c1[i]).0 != (#[trigger] c1[j]).0 by {
                        assert(c0[i].0 == c1[i].0 && c0[j].0 == c1[j].0);
                    }
                }
            },
            None => {
                let mut list: Vec<usize> = Vec::new();
                list.push(idx);
                self.cells.push((key, list));
                proof {
                    let c1 = self.cells@;
                    assert(c1.drop_last() =~= c0);
                    lemma_first_cell(c0, key);
                    assert forall|i: int, j: int| 0 <= i < j < c1.len() && old(self).well_formed() implies (#[trigger] c1[i]).0 != (#[trigger] c1[j]).0 by {
                        if j == c0.len() {
                            assert(c0[i].0 != key);
                        } else {
                            assert(c1[i] == c0[i] && c1[j] == c0[j]);
                        }
                    }
                    assert forall|other: (i32, i32)| other != key implies #[trigger] cell_list(c1, other)
                        == cell_list(c0, other) by {
                        lemma_first_cell(c0, other);
                    }
                }
            },
        }
    }

    /// Lists obstacle `idx` for every cell of the block from `(x0, y0)` to
    /// `(x1, y1)`.
    pub fn insert_block(&mut self, idx: usize, x0: i32, y0: i32, x1: i32, y1: i32)
        ensures
            forall|key: (i32, i32)| #[trigger] final(self).cell(key) == if in_block(key, x0, y0, x1, y1) {
                old(self).cell(key).push(idx)
            } else {
                old(self).cell(key)
            },
            old(self).well_formed() ==> final(self).well_formed(),
    {
        let ghost g0 = *self;
        let mut ix: i64 = x0 as i64;
        while ix <= x1 as i64
            invariant
                x0 <= ix,
                ix <= x1 + 1 || x1 < x0,
                g0.well_formed() ==> self.well_formed(),
                forall|key: (i32, i32)| #[trigger] self.cell(key) == if in_block(key, x0, y0, x1, y1) && key.0 < ix {
                    g0.cell(key).push(idx)
                } else {
                    g0.cell(key)
                },
            decreases x1 as i64 + 1 - ix,
        {
            let mut iy: i64 = y0 as i64;
            while iy <= y1 as i64
                invariant
                    x0 <= ix <= x1,
                    y0 <= iy,
                    g0.well_formed() ==> self.well_formed(),
                    iy <= y1 + 1 || y1 < y0,
                    forall|key: (i32, i32)| #[trigger] self.cell(key) == if in_block(key, x0, y0, x1, y1)
                        && (key.0 < ix || (key.0 == ix && key.1 < iy)) {
                        g0.cell(key).push(idx)
                    } else {
                        g0.cell(key)
                    },
                decreases y1 as i64 + 1 - iy,
            {
                self.add_to_cell(idx, (ix as i32, iy as i32));
                iy += 1;
            }
            ix += 1;
        }
    }

    /// The obstacles listed for the cells of the block from `(x0, y0)` to
    /// `(x1, y1)`, each once, in the order met when scanning the block column
    /// by column, each column from `y0` up (first occurrence kept).
    pub fn query_block(&self, x0: i32, y0: i32, x1: i32, y1: i32) -> (hits: Vec<usize>)
        ensures
            hits@.no_duplicates(),
            forall|k: usize| #[trigger] hits@.contains(k) <==> listed_in_block(self.cells@, k, x0, y0, x1, y1),
            hits@ == first_occurrences(block_scan(*self, x0 as int, y0 as int, x1 + 1, y1 as int)),
    {
        let mut hits: Vec<usize> = Vec::new();
        let mut ix: i64 = x0 as i64;
        while ix <= x1 as i64
            invariant
                x0 <= ix,
                ix <= x1 + 1 || x1 < x0,
                x1 < x0 ==> ix == x0,
                hits@ == first_occurrences(block_scan(*self, x0 as int, y0 as int, ix as int, y1 as int)),
                hits@.no_duplicates(),
                forall|k: usize| #[trigger] hits@.contains(k) <==> exists|key: (i32, i32)|
                    in_block(key, x0, y0, x1, y1) && key.0 < ix && #[trigger] self.cell(key).contains(k),
            decreases x1 as i64 + 1 - ix,
        {
            let mut iy: i64 = y0 as i64;
            while iy <= y1 as i64
                invariant
                    x0 <= ix <= x1,
                    y0 <= iy,
                    iy <= y1 + 1 || y1 < y0,
                    y1 < y0 ==> iy == y0,
                    hits@ == first_occurrences(
                        block_scan(*self, x0 as int, y0 as int, ix as int, y1 as int) + column_scan(
                            *self,
                            ix as int,
                            y0 as int,
                            iy as int,
                        ),
                    ),
                    hits@.no_duplicates(),
                    forall|k: usize| #[trigger] hits@.contains(k) <==> exists|key: (i32, i32)|
                        in_block(key, x0, y0, x1, y1) && (key.0 < ix || (key.0 == ix && key.1 < iy))
                            && #[trigger] self.cell(key).contains(k),
                decreases y1 as i64 + 1 - iy,
            {
                let key = (ix as i32, iy as i32);
                let ghost pre0 = block_scan(*self, x0 as int, y0 as int, ix as int, y1 as int) + column_scan(
                    *self,
                    ix as int,
                    y0 as int,
                    iy as int,
                );
                match self.find_cell(key) {
                    Some(p) => {
                        let list = &self.cells[p].1;
                        let ghost h0 = hits@;
                        let mut t: usize = 0;
                        while t < list.len()
                            invariant
                                t <= list.len(),
                                list@ == self.cell(key),
                                hits@ == first_occurrences(pre0 + list@.take(t as int)),
                                hits@.no_duplicates(),
                                forall|k: usize| #[trigger] hits@.contains(k) <==> (h0.contains(k) || list@.take(t as int).contains(k)),
                            decreases list.len() - t,
                        {
                            let k = list[t];
                            let ghost before = hits@;
                            if !contains_index(&hits, k) {
                                hits.push(k);
                            }
                            proof {
                                let pre = list@.take(t + 1);
                                assert(pre =~= list@.take(t as int).push(k));
                                let whole = pre0 + pre;
                                assert(whole.drop_last() =~= pre0 + list@.take(t as int));
                                assert(whole.last() == k);
                                assert forall|q: usize| #[trigger] hits@.contains(q) <==> (h0.contains(q) || pre.contains(q)) by {
                                    if hits@.contains(q) && !before.contains(q) {
                                        assert(q == k);
                                        assert(pre[t as int] == k);
                                    }
                                    if pre.contains(q) && !list@.take(t as int).contains(q) {
                                        let w = choose|w: int| 0 <= w < pre.len() && #[trigger] pre[w] == q;
                                        if w < t {
                                            assert(list@.take(t as int)[w] == q);
                                        }
                                        assert(q == k);
                                        if !before.contains(k) {
                                            assert(hits@[hits@.len() - 1] == k);
                                        }
                                    }
                                    if before.contains(q) {
                                        let w = choose|w: int| 0 <= w < before.len() && before[w] == q;
                                        assert(hits@[w] == q);
                                    }
                                }
                            }
                            t += 1;
                        }
                        proof {
                            assert(list@.take(list@.len() as int) =~= list@);
                        }
                    },
                    None => {
                        proof {
                            assert(self.cell(key) =~= Seq::<usize>::empty());
                            assert(pre0 + self.cell(key) =~= pre0);
                        }
                    },
                }
                proof {
                    assert(key == ((ix as int) as i32, ((iy + 1) - 1) as i32));
                    assert(block_scan(*self, x0 as int, y0 as int, ix as int, y1 as int) + column_scan(
                        *self,
                        ix as int,
                        y0 as int,
                        iy + 1,
                    ) =~= pre0 + self.cell(key));
                    assert forall|k: usize| #[trigger] hits@.contains(k) <==> exists|c: (i32, i32)|
                        in_block(c, x0, y0, x1, y1) && (c.0 < ix || (c.0 == ix && c.1 < iy + 1))
                            && #[trigger] self.cell(c).contains(k) by {
                        if self.cell(key).contains(k) {
                            assert(in_block(key, x0, y0, x1, y1));
                        }
                    }
                }
                iy += 1;
            }
            proof {
                assert forall|k: usize| #[trigger] hits@.contains(k) <==> exists|c: (i32, i32)|
                    in_block(c, x0, y0, x1, y1) && c.0 < ix + 1 && #[trigger] self.cell(c).contains(k) by {
                    if exists|c: (i32, i32)| in_block(c, x0, y0, x1, y1) && c.0 < ix + 1 && #[trigger] self.cell(c).contains(k) {
                        let c = choose|c: (i32, i32)| in_block(c, x0, y0, x1, y1) && c.0 < ix + 1 && #[trigger] self.cell(c).contains(k);
                        assert(c.0 < ix || (c.0 == ix && c.1 < iy));
                    }
                }
                assert(column_scan(*self, ix as int, y0 as int, iy as int) == column_scan(
                    *self,
                    ix as int,
                    y0 as int,
                    y1 + 1,
                ));
                assert(block_scan(*self, x0 as int, y0 as int, ix + 1, y1 as int) == block_scan(
                    *self,
                    x0 as int,
                    y0 as int,
                    ix as int,
                    y1 as int,
                ) + column_scan(*self, ix as int, y0 as int, y1 + 1));
            }
            ix += 1;
        }
        proof {
            assert(block_scan(*self, x0 as int, y0 as int, ix as int, y1 as int) == block_scan(
                *self,
                x0 as int,
                y0 as int,
                x1 + 1,
                y1 as int,
            ));
            assert forall|k: usize| #[trigger] hits@.contains(k) <==> listed_in_block(self.cells@, k, x0, y0, x1, y1) by {
                if listed_in_block(self.cells@, k, x0, y0, x1, y1) {
                    let c = choose|c: (i32, i32)| in_block(c, x0, y0, x1, y1) && #[trigger] cell_list(self.cells@, c).contains(k);
                    assert(self.cell(c).contains(k));
                }
            }
        }
        hits
    }
}

/// Whether `k` is in `v`.
fn contains_index(v: &Vec<usize>, k: usize) -> (res: bool)
    ensures
        res == v@.contains(k),
{
    let mut i: usize = 0;
    while i < v.len()
        invariant
            i <= v.len(),
            forall|j: int| 0 <= j < i ==> v@[j] != k,
        decreases v.len() - i,
    {
        if v[i] == k {
            return true;
        }
        i += 1;
    }
    false
}

/// An obstacle entered over a block is found by every query over a block
/// that shares a cell with it.
pub proof fn lemma_inserted_found(
    before: CellGrid,
    after: CellGrid,
    idx: usize,
    x0: i32,
    y0: i32,
    x1: i32,
    y1: i32,
    key: (i32, i32),
    qx0: i32,
    qy0: i32,
    qx1: i32,
    qy1: i32,
)
    requires
        forall|c: (i32, i32)| #[trigger] after.cell(c) == if in_block(c, x0, y0, x1, y1) {
            before.cell(c).push(idx)
        } else {
            before.cell(c)
        },
        in_block(key, x0, y0, x1, y1),
        in_block(key, qx0, qy0, qx1, qy1),
    ensures
        listed_in_block(after.cells@, idx, qx0, qy0, qx1, qy1),
{
    assert(after.cell(key) == before.cell(key).push(idx));
    assert(after.cell(key)[before.cell(key).len() as int] == idx);
    assert(cell_list(after.cells@, key).contains(idx));
}

} // verus!
