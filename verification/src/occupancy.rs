//! Crowding of grid cells by the routes already laid.  Each cell a route
//! passes over gets weight 3, its four side neighbours 2 and its four corner
//! neighbours 1, added up over routes and capped at `u16::MAX`.  A new route
//! is scored by the weights of the cells it passes over.  Turning positions
//! into cells is left to the caller.
use vstd::prelude::*;

verus! {

/// Position of the first entry for cell `key`.
pub open spec fn first_entry(cells: Seq<((i32, i32), u16)>, key: (i32, i32)) -> Option<int>
    decreases cells.len(),
{
    if cells.len() == 0 {
        None
    } else {
        match first_entry(cells.drop_last(), key) {
            Some(p) => Some(p),
            None => if cells.last().0 == key {
                Some(cells.len() - 1)
            } else {
                None
            },
        }
    }
}

proof fn lemma_first_entry(cells: Seq<((i32, i32), u16)>, key: (i32, i32))
    ensures
        match first_entry(cells, key) {
            Some(p) => 0 <= p < cells.len() && cells[p].0 == key && forall|q: int|
                0 <= q < p ==> (#[trigger] cells[q]).0 != key,
            None => forall|q: int| 0 <= q < cells.len() ==> (#[trigger] cells[q]).0 != key,
        },
    decreases cells.len(),
{
    if cells.len() > 0 {
        lemma_first_entry(cells.drop_last(), key);
        assert forall|q: int| 0 <= q < cells.len() - 1 implies cells.drop_last()[q] == cells[q] by {}
    }
}

proof fn lemma_first_entry_same_keys(c0: Seq<((i32, i32), u16)>, c1: Seq<((i32, i32), u16)>, key: (i32, i32))
    requires
        c0.len() == c1.len(),
        forall|q: int| 0 <= q < c0.len() ==> (#[trigger] c0[q]).0 == c1[q].0,
    ensures
        first_entry(c0, key) == first_entry(c1, key),
    decreases c0.len(),
{
    if c0.len() > 0 {
        lemma_first_entry_same_keys(c0.drop_last(), c1.drop_last(), key);
    }
}

/// The weight recorded for cell `key`: that of its first entry, or 0.
pub open spec fn weight_in(cells: Seq<((i32, i32), u16)>, key: (i32, i32)) -> int {
    match first_entry(cells, key) {
        Some(p) => cells[p].1 as int,
        None => 0,
    }
}

/// What a route passing over cell `at` adds to cell `key`.
pub open spec fn kernel(key: (i32, i32), at: (i32, i32)) -> int {
    let dx = key.0 - at.0;
    let dy = key.1 - at.1;
    if -1 <= dx <= 1 && -1 <= dy <= 1 {
        if dx == 0 && dy == 0 {
            3
        } else if dx == 0 || dy == 0 {
            2
        } else {
            1
        }
    } else {
        0
    }
}

/// What a route passing over the cells `path` adds to cell `key`.
pub open spec fn kernel_total(key: (i32, i32), path: Seq<(i32, i32)>) -> int
    decreases path.len(),
{
    if path.len() == 0 {
        0
    } else {
        kernel_total(key, path.drop_last()) + kernel(key, path.last())
    }
}

/// `w`, capped at `u16::MAX`.
pub open spec fn capped(w: int) -> int {
    if w < u16::MAX {
        w
    } else {
        u16::MAX as int
    }
}

/// Every cell of a path has a coordinate pair away from the ends of `i32`,
/// so that its neighbours are cells too.
pub open spec fn cells_inside(path: Seq<(i32, i32)>) -> bool {
    forall|i: int|
        0 <= i < path.len() ==> i32::MIN < (#[trigger] path[i]).0 < i32::MAX && i32::MIN < path[i].1 < i32::MAX
}

/// The weights of the grid cells, one entry per cell that a route came near.
pub struct EdgeOccupancy {
    pub cells: Vec<((i32, i32), u16)>,
}

impl EdgeOccupancy {
    /// One entry per cell.
    pub open spec fn well_formed(&self) -> bool {
        forall|i: int, j: int| 0 <= i < j < self.cells@.len() ==> (#[trigger] self.cells@[i]).0 != (#[trigger] self.cells@[j]).0
    }

    /// The weight of cell `key`.
    pub open spec fn weight(&self, key: (i32, i32)) -> int {
        weight_in(self.cells@, key)
    }

    /// The sum of the weights of the cells of `path`, each counted as often
    /// as it occurs.
    pub open spec fn score(&self, path: Seq<(i32, i32)>) -> int
        decreases path.len(),
    {
        if path.len() == 0 {
            0
        } else {
            self.score(path.drop_last()) + self.weight(path.last())
        }
    }

    /// How many of the cells of `path` (counted as often as they occur)
    /// have a positive weight.
    pub open spec fn hits(&self, path: Seq<(i32, i32)>) -> int
        decreases path.len(),
    {
        if path.len() == 0 {
            0
        } else {
            self.hits(path.drop_last()) + if self.weight(path.last()) > 0 {
                1int
            } else {
                0int
            }
        }
    }

    /// No cell is crowded yet.
    pub fn new() -> (g: EdgeOccupancy)
        ensures
            forall|key: (i32, i32)| #[trigger] g.weight(key) == 0,
            g.well_formed(),
    {
        EdgeOccupancy { cells: Vec::new() }
    }

    fn find_entry(&self, key: (i32, i32)) -> (res: Option<usize>)
        ensures
            match res {
                Some(p) => p < self.cells.len() && first_entry(self.cells@, key) == Some(p as int),
                None => first_entry(self.cells@, key) is None,
            },
    {
        proof {
            lemma_first_entry(self.cells@, key);
        }
        let mut i: usize = 0;
        while i < self.cells.len()
            invariant
                i <= self.cells.len(),
                forall|p: int| 0 <= p < i ==> (#[trigger] self.cells@[p]).0 != key,
                match first_entry(self.cells@, key) {
                    Some(p) => 0 <= p < self.cells.len() && self.cells@[p].0 == key && forall|q: int|
                        0 <= q < p ==> (#[trigger] self.cells@[q]).0 != key,
                    None => forall|q: int| 0 <= q < self.cells.len() ==> (#[trigger] self.cells@[q]).0 != key,
                },
            decreases self.cells.len() - i,
        {
            if self.cells[i].0 .0 == key.0 && self.cells[i].0 .1 == key.1 {
                return Some(i);
            }
            i += 1;
        }
        None
    }

    /// Adds `w` to the weight of cell `key`, capped at `u16::MAX`.
    fn bump(&mut self, key: (i32, i32), w: u16)
        ensures
            final(self).weight(key) == capped(old(self).weight(key) + w),
            forall|other: (i32, i32)| other != key ==> #[trigger] final(self).weight(other) == old(self).weight(other),
            old(self).well_formed() ==> final(self).well_formed(),
    {
        let ghost c0 = self.cells@;
        match self.find_entry(key) {
            Some(p) => {
                let cur = self.cells[p].1;
                self.cells.set(p, (key, cur.saturating_add(w)));
                proof {
                    let c1 = self.cells@;
                    lemma_first_entry(c0, key);
                    assert forall|q: int| 0 <= q < c0.len() implies (#[trigger] c0[q]).0 == c1[q].0 by {}
                    assert forall|other: (i32, i32)| other != key implies #[trigger] weight_in(c1, other)
                        == weight_in(c0, other) by {
                        lemma_first_entry_same_keys(c0, c1, other);
                        lemma_first_entry(c0, other);
                    }
                    lemma_first_entry_same_keys(c0, c1, key);
                    assert forall|i: int, j: int| 0 <= i < j < c1.len() && old(self).well_formed() implies (#[trigger] c1[i]).0 != (#[trigger] c1[j]).0 by {
                        assert(c0[i].0 == c1[i].0 && c0[j].0 == c1[j].0);
                    }
                }
            },
            None => {
                self.cells.push((key, w));
                proof {
                    let c1 = self.cells@;
                    assert(c1.drop_last() =~= c0);
                    lemma_first_entry(c0, key);
                    assert forall|i: int, j: int| 0 <= i < j < c1.len() && old(self).well_formed() implies (#[trigger] c1[i]).0 != (#[trigger] c1[j]).0 by {
                        if j == c0.len() {
                            assert(c0[i].0 != key);
                        } else {
                            assert(c1[i] == c0[i] && c1[j] == c0[j]);
                        }
                    }
                    assert forall|other: (i32, i32)| other != key implies #[trigger] weight_in(c1, other)
                        == weight_in(c0, other) by {
                        lemma_first_entry(c0, other);
                    }
                }
            },
        }
    }

    /// Adds the weights of a route passing over cell `at`.
    fn stamp(&mut self, at: (i32, i32))
        requires
            i32::MIN < at.0 < i32::MAX,
            i32::MIN < at.1 < i32::MAX,
        ensures
            forall|key: (i32, i32)| #[trigger] final(self).weight(key) == capped(old(self).weight(key) + kernel(key, at)),
            old(self).well_formed() ==> final(self).well_formed(),
    {
        let ghost wf0 = self.well_formed();
        let ghost g0 = self.cells@;
        let mut dx: i32 = -1;
        while dx <= 1
            invariant
                -1 <= dx <= 2,
                wf0 ==> self.well_formed(),
                i32::MIN < at.0 < i32::MAX,
                i32::MIN < at.1 < i32::MAX,
                forall|key: (i32, i32)| #[trigger] self.weight(key) == capped(weight_in(g0, key) + if key.0 - at.0 < dx {
                    kernel(key, at)
                } else {
                    0
                }),
            decreases 2 - dx,
        {
            let mut dy: i32 = -1;
            while dy <= 1
                invariant
                    -1 <= dx <= 1,
                    -1 <= dy <= 2,
                    wf0 ==> self.well_formed(),
                    i32::MIN < at.0 < i32::MAX,
                    i32::MIN < at.1 < i32::MAX,
                    forall|key: (i32, i32)| #[trigger] self.weight(key) == capped(weight_in(g0, key) + if key.0 - at.0 < dx
                        || (key.0 - at.0 == dx && key.1 - at.1 < dy) {
                        kernel(key, at)
                    } else {
                        0
                    }),
                decreases 2 - dy,
            {
                let w: u16 = if dx == 0 && dy == 0 {
                    3
                } else if dx == 0 || dy == 0 {
                    2
                } else {
                    1
                };
                let k = (at.0 + dx, at.1 + dy);
                proof {
                    assert(kernel(k, at) == w);
                }
                self.bump(k, w);
                dy += 1;
            }
            dx += 1;
        }
    }

    /// Adds the weights of a route passing over the cells `path`, in turn:
    /// each cell's own weight grows by 3, its side neighbours' by 2 and its
    /// corner neighbours' by 1 for every cell of the path, capped at
    /// `u16::MAX`.
    pub fn add_path(&mut self, path: &Vec<(i32, i32)>)
        requires
            cells_inside(path@),
        ensures
            forall|key: (i32, i32)| #[trigger] final(self).weight(key) == capped(old(self).weight(key) + kernel_total(key, path@)),
            old(self).well_formed() ==> final(self).well_formed(),
    {
        let ghost g0 = self.cells@;
        let ghost wf0 = self.well_formed();
        let mut i: usize = 0;
        while i < path.len()
            invariant
                i <= path.len(),
                wf0 ==> self.well_formed(),
                cells_inside(path@),
                forall|key: (i32, i32)| #[trigger] self.weight(key) == capped(weight_in(g0, key) + kernel_total(key, path@.take(i as int))),
            decreases path.len() - i,
        {
            let at = path[i];
            proof {
                assert(i32::MIN < path@[i as int].0 < i32::MAX && i32::MIN < path@[i as int].1 < i32::MAX);
            }
            let ghost mid = *self;
            self.stamp(at);
            proof {
                assert(path@.take(i + 1).drop_last() =~= path@.take(i as int));
                assert forall|key: (i32, i32)| #[trigger] self.weight(key) == capped(
                    weight_in(g0, key) + kernel_total(key, path@.take(i + 1)),
                ) by {
                    assert(mid.weight(key) == capped(weight_in(g0, key) + kernel_total(key, path@.take(i as int))));
                    assert(kernel_total(key, path@.take(i + 1)) == kernel_total(key, path@.take(i as int)) + kernel(
                        key,
                        at,
                    ));
                }
            }
            i += 1;
        }
        proof {
            assert(path@.take(path@.len() as int) =~= path@);
        }
    }

    /// The weight of cell `key`.
    pub fn weight_at(&self, key: (i32, i32)) -> (res: u16)
        ensures
            res == self.weight(key),
    {
        match self.find_entry(key) {
            Some(p) => self.cells[p].1,
            None => 0,
        }
    }

    /// The sum of the weights of the cells of `path`.
    pub fn score_path(&self, path: &Vec<(i32, i32)>) -> (res: u32)
        requires
            self.score(path@) <= u32::MAX,
        ensures
            res == self.score(path@),
    {
        let mut total: u32 = 0;
        let mut i: usize = 0;
        while i < path.len()
            invariant
                i <= path.len(),
                self.score(path@) <= u32::MAX,
                total == self.score(path@.take(i as int)),
            decreases path.len() - i,
        {
            proof {
                assert(path@.take(i + 1).drop_last() =~= path@.take(i as int));
                self.lemma_score_prefix(path@, i + 1);
            }
            let w = self.weight_at(path[i]);
            total = total + w as u32;
            i += 1;
        }
        proof {
            assert(path@.take(path@.len() as int) =~= path@);
        }
        total
    }

    proof fn lemma_score_prefix(&self, path: Seq<(i32, i32)>, i: int)
        requires
            0 <= i <= path.len(),
        ensures
            self.score(path.take(i)) <= self.score(path),
        decreases path.len() - i,
    {
        if i < path.len() {
            self.lemma_score_prefix(path, i + 1);
            assert(path.take(i + 1).drop_last() =~= path.take(i));
            lemma_first_entry(self.cells@, path[i]);
        } else {
            assert(path.take(i) =~= path);
        }
    }

    /// How many of the cells of `path` have a positive weight, capped at
    /// `u32::MAX`.
    pub fn overlap_count(&self, path: &Vec<(i32, i32)>) -> (res: u32)
        ensures
            res == if self.hits(path@) < u32::MAX {
                self.hits(path@)
            } else {
                u32::MAX as int
            },
    {
        let mut count: u32 = 0;
        let mut i: usize = 0;
        while i < path.len()
            invariant
                i <= path.len(),
                count == if self.hits(path@.take(i as int)) < u32::MAX {
                    self.hits(path@.take(i as int))
                } else {
                    u32::MAX as int
                },
            decreases path.len() - i,
        {
            proof {
                assert(path@.take(i + 1).drop_last() =~= path@.take(i as int));
                self.lemma_hits_nonneg(path@.take(i as int));
            }
            let w = self.weight_at(path[i]);
            if w > 0 {
                count = count.saturating_add(1);
            }
            i += 1;
        }
        proof {
            assert(path@.take(path@.len() as int) =~= path@);
        }
        count
    }

    proof fn lemma_hits_nonneg(&self, path: Seq<(i32, i32)>)
        ensures
            0 <= self.hits(path) <= path.len(),
        decreases path.len(),
    {
        if path.len() > 0 {
            self.lemma_hits_nonneg(path.drop_last());
        }
    }
}

/// A path adds at least 3 to each of its own cells.
proof fn lemma_kernel_total_own_cell(path: Seq<(i32, i32)>, i: int)
    requires
        0 <= i < path.len(),
    ensures
        kernel_total(path[i], path) >= 3,
    decreases path.len(),
{
    lemma_kernel_total_at_least(path[i], path, i);
}

proof fn lemma_kernel_total_at_least(key: (i32, i32), path: Seq<(i32, i32)>, i: int)
    requires
        0 <= i < path.len(),
    ensures
        kernel_total(key, path) >= kernel(key, path[i]),
    decreases path.len(),
{
    if i < path.len() - 1 {
        lemma_kernel_total_at_least(key, path.drop_last(), i);
    } else {
        lemma_kernel_total_nonneg(key, path.drop_last());
    }
}

proof fn lemma_kernel_total_nonneg(key: (i32, i32), path: Seq<(i32, i32)>)
    ensures
        kernel_total(key, path) >= 0,
    decreases path.len(),
{
    if path.len() > 0 {
        lemma_kernel_total_nonneg(key, path.drop_last());
    }
}

/// Once a path has been added, every one of its cells weighs at least 3
/// (or `u16::MAX`), so all of its cells count as overlaps when the same
/// path is counted again.
pub proof fn lemma_added_path_overlaps(before: EdgeOccupancy, after: EdgeOccupancy, path: Seq<(i32, i32)>)
    requires
        forall|key: (i32, i32)| #[trigger] after.weight(key) == capped(before.weight(key) + kernel_total(key, path)),
    ensures
        forall|i: int| 0 <= i < path.len() ==> after.weight(#[trigger] path[i]) >= 3,
        after.hits(path) == path.len(),
{
    assert forall|i: int| 0 <= i < path.len() implies after.weight(#[trigger] path[i]) >= 3 by {
        lemma_kernel_total_own_cell(path, i);
        lemma_first_entry(before.cells@, path[i]);
    }
    lemma_all_hit(after, path);
}

proof fn lemma_all_hit(g: EdgeOccupancy, path: Seq<(i32, i32)>)
    requires
        forall|i: int| 0 <= i < path.len() ==> g.weight(#[trigger] path[i]) >= 3,
    ensures
        g.hits(path) == path.len(),
    decreases path.len(),
{
    if path.len() > 0 {
        let p = path.drop_last();
        assert forall|i: int| 0 <= i < p.len() implies g.weight(#[trigger] p[i]) >= 3 by {
            assert(p[i] == path[i]);
        }
        lemma_all_hit(g, p);
        assert(g.weight(path[path.len() - 1]) >= 3);
    }
}

} // verus!
