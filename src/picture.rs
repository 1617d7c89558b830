//! The grid that the chaos game records into. Each cell counts the points
//! that landed in it, starting from one so that the logarithm used to shade
//! it is always defined; counters are only ever raised.
use vstd::prelude::*;

verus! {

/// Number of columns of the grid made by [`Picture::new`].
pub const PIC_WIDTH: u32 = 512;

/// Number of rows of the grid made by [`Picture::new`].
pub const PIC_HEIGHT: u32 = 512;

/// `b` holds, cell by cell, at least what `a` holds.
pub open spec fn counts_grew(a: Seq<u32>, b: Seq<u32>) -> bool {
    &&& a.len() == b.len()
    &&& forall|i: int| 0 <= i < a.len() ==> a[i] <= b[i]
}

/// The counter after one more hit: one more, unless it is already the
/// largest `u32`.
pub open spec fn bumped(c: u32) -> u32 {
    if c < u32::MAX { (c + 1) as u32 } else { c }
}

/// Hit-count grid of a fractal flame, stored row by row.
pub struct Picture {
    width: u32,
    height: u32,
    /// Number of times each cell has been hit, plus one.
    cell_counter: Vec<u32>,
}

impl Picture {
    /// Number of columns.
    pub closed spec fn width_spec(&self) -> u32 {
        self.width
    }

    /// Number of rows.
    pub closed spec fn height_spec(&self) -> u32 {
        self.height
    }

    /// The counters, row by row.
    pub closed spec fn counts(&self) -> Seq<u32> {
        self.cell_counter@
    }

    /// Number of cells of the grid.
    pub open spec fn size(&self) -> int {
        self.width_spec() as int * self.height_spec() as int
    }

    /// The grid is non-empty, its cells can be counted in a `u32`, it holds
    /// one counter per cell and every counter is at least one.
    pub open spec fn wf(&self) -> bool {
        &&& self.width_spec() > 0
        &&& self.height_spec() > 0
        &&& self.size() <= u32::MAX as int
        &&& self.counts().len() == self.size()
        &&& forall|i: int| 0 <= i < self.counts().len() ==> self.counts()[i] >= 1
    }

    /// A grid of `PIC_WIDTH` by `PIC_HEIGHT` cells, each counted once.
    pub fn new() -> (r: Picture)
        ensures
            r.wf(),
            r.width_spec() == PIC_WIDTH,
            r.height_spec() == PIC_HEIGHT,
            forall|i: int| 0 <= i < r.size() ==> r.counts()[i] == 1,
    {
        Picture::with_size(PIC_WIDTH, PIC_HEIGHT)
    }

    /// A grid of `width` by `height` cells, each counted once, so that the
    /// logarithm of every count is defined.
    pub fn with_size(width: u32, height: u32) -> (r: Picture)
        requires
            width > 0,
            height > 0,
            width as int * height as int <= u32::MAX as int,
        ensures
            r.wf(),
            r.width_spec() == width,
            r.height_spec() == height,
            forall|i: int| 0 <= i < r.size() ==> r.counts()[i] == 1,
    {
        let n: u32 = width * height;
        let mut cell_counter: Vec<u32> = Vec::new();
        let mut i: u32 = 0;
        while i < n
            invariant
                i <= n,
                cell_counter@.len() == i as int,
                forall|j: int| 0 <= j < i ==> cell_counter@[j] == 1,
            decreases n - i,
        {
            cell_counter.push(1);
            i = i + 1;
        }
        Picture { width, height, cell_counter }
    }

    /// Number of columns.
    pub fn width(&self) -> (r: u32)
        ensures
            r == self.width_spec(),
    {
        self.width
    }

    /// Number of rows.
    pub fn height(&self) -> (r: u32)
        ensures
            r == self.height_spec(),
    {
        self.height
    }

    /// The counters, row by row: one more than the number of hits of each
    /// cell.
    pub fn cell_counter(&self) -> (r: &Vec<u32>)
        ensures
            r@ == self.counts(),
    {
        &self.cell_counter
    }

    /// Index of the cell at `row` and `column`.
    pub fn get_index(&self, row: u32, column: u32) -> (r: usize)
        requires
            self.wf(),
            row < self.height_spec(),
            column < self.width_spec(),
        ensures
            r as int == row as int * self.width_spec() as int + column as int,
            r < self.size(),
    {
        proof {
            assert((row as int) * (self.width as int) + (column as int) < (self.height as int) * (self.width as int)) by (nonlinear_arith)
                requires row < self.height, column < self.width;
        }
        (row * self.width + column) as usize
    }

    /// Index of the cell in `column` and `row`, each first brought down to
    /// the last column or row of the grid. A point just inside the edge of
    /// the square can round to one past the last cell; it lands in the last.
    pub fn clamped_index(&self, column: u32, row: u32) -> (r: usize)
        requires
            self.wf(),
        ensures
            r as int == clamp(row, self.height_spec()) as int * self.width_spec() as int
                + clamp(column, self.width_spec()) as int,
            r < self.size(),
    {
        let last_column = if column < self.width { column } else { self.width - 1 };
        let last_row = if row < self.height { row } else { self.height - 1 };
        self.get_index(last_row, last_column)
    }

    /// Counts one more hit of the cell at `idx`. A counter that has reached
    /// the largest `u32` stays there.
    pub fn record_hit(&mut self, idx: usize)
        requires
            old(self).wf(),
            idx < old(self).size(),
        ensures
            final(self).wf(),
            final(self).width_spec() == old(self).width_spec(),
            final(self).height_spec() == old(self).height_spec(),
            final(self).counts() == old(self).counts().update(idx as int, bumped(old(self).counts()[idx as int])),
            final(self).counts() == counts_after(old(self).counts(), seq![idx as int]),
            counts_grew(old(self).counts(), final(self).counts()),
    {
        let c = self.cell_counter[idx];
        if c < u32::MAX {
            self.cell_counter.set(idx, c + 1);
        }
        assert(self.cell_counter@ =~= old(self).cell_counter@.update(idx as int, bumped(c)));
        assert(seq![idx as int].drop_last() =~= Seq::<int>::empty());
        assert(counts_after(old(self).counts(), Seq::<int>::empty()) == old(self).counts());
        assert(seq![idx as int].last() == idx as int);
    }

    /// The largest counter of the grid; every counter lies between one and
    /// it, so the logarithm of a counter over the logarithm of the largest is
    /// a shade in `[0, 1]` once the grid has been hit.
    pub fn max_count(&self) -> (r: u32)
        requires
            self.wf(),
        ensures
            r >= 1,
            forall|i: int| 0 <= i < self.size() ==> 1 <= #[trigger] self.counts()[i] <= r,
            exists|i: int| 0 <= i < self.size() && self.counts()[i] == r,
    {
        proof {
            assert((self.width as int) * (self.height as int) > 0) by (nonlinear_arith)
                requires self.width > 0, self.height > 0;
        }
        let mut m: u32 = self.cell_counter[0];
        let mut k: usize = 1;
        while k < self.cell_counter.len()
            invariant
                self.wf(),
                1 <= k <= self.cell_counter@.len(),
                forall|i: int| 0 <= i < k ==> self.cell_counter@[i] <= m,
                exists|i: int| 0 <= i < k && self.cell_counter@[i] == m,
            decreases self.cell_counter@.len() - k,
        {
            if self.cell_counter[k] > m {
                m = self.cell_counter[k];
            }
            k = k + 1;
        }
        m
    }
}

/// `v` brought down to at most `bound - 1`.
pub open spec fn clamp(v: u32, bound: u32) -> u32 {
    if v < bound { v } else { (bound - 1) as u32 }
}

/// The counters after recording each cell of `hits` in turn, from `start`.
pub open spec fn counts_after(start: Seq<u32>, hits: Seq<int>) -> Seq<u32>
    decreases hits.len(),
{
    if hits.len() == 0 {
        start
    } else {
        let before = counts_after(start, hits.drop_last());
        let i = hits.last();
        if 0 <= i < before.len() {
            before.update(i, bumped(before[i]))
        } else {
            before
        }
    }
}

/// One more hit on top of a run, as [`Picture::record_hit`] records it.
proof fn lemma_counts_after_step(start: Seq<u32>, hits: Seq<int>, k: int)
    requires
        0 <= k < hits.len(),
        0 <= hits[k] < start.len(),
    ensures
        counts_after(start, hits.take(k + 1)) == counts_after(start, hits.take(k)).update(
            hits[k],
            bumped(counts_after(start, hits.take(k))[hits[k]]),
        ),
{
    assert(hits.take(k + 1).drop_last() =~= hits.take(k));
    lemma_counts_after_len(start, hits.take(k));
}

proof fn lemma_counts_after_len(start: Seq<u32>, hits: Seq<int>)
    ensures
        counts_after(start, hits).len() == start.len(),
    decreases hits.len(),
{
    if hits.len() > 0 {
        lemma_counts_after_len(start, hits.drop_last());
    }
}

/// Counting is monotonic: every counter of a new grid starts at exactly
/// one, and over a run of hits no counter ever goes down, so at every point
/// of the run each counter is at least one.
pub proof fn lemma_monotonic_counting(start: Seq<u32>, hits: Seq<int>, k1: int, k2: int)
    requires
        forall|i: int| 0 <= i < start.len() ==> start[i] == 1,
        forall|j: int| 0 <= j < hits.len() ==> 0 <= #[trigger] hits[j] < start.len(),
        0 <= k1 <= k2 <= hits.len(),
    ensures
        counts_grew(counts_after(start, hits.take(k1)), counts_after(start, hits.take(k2))),
        forall|i: int| 0 <= i < start.len() ==> 1 <= #[trigger] counts_after(start, hits.take(k2))[i],
{
    lemma_counts_grow(start, hits, k1, k2);
    lemma_counts_grow(start, hits, 0, k2);
    assert(hits.take(0) =~= Seq::<int>::empty());
}

proof fn lemma_counts_grow(start: Seq<u32>, hits: Seq<int>, k1: int, k2: int)
    requires
        forall|j: int| 0 <= j < hits.len() ==> 0 <= #[trigger] hits[j] < start.len(),
        0 <= k1 <= k2 <= hits.len(),
    ensures
        counts_grew(counts_after(start, hits.take(k1)), counts_after(start, hits.take(k2))),
    decreases k2 - k1,
{
    lemma_counts_after_len(start, hits.take(k1));
    lemma_counts_after_len(start, hits.take(k2));
    if k1 < k2 {
        lemma_counts_grow(start, hits, k1, k2 - 1);
        lemma_counts_after_step(start, hits, k2 - 1);
        lemma_counts_after_len(start, hits.take(k2 - 1));
        let before = counts_after(start, hits.take(k2 - 1));
        let after = counts_after(start, hits.take(k2));
        assert(forall|i: int| 0 <= i < start.len() ==> before[i] <= #[trigger] after[i]);
    }
}

} // verus!
