//! A 7x24 grid counting commits by local weekday and hour.
//!
//! Bucketing always uses the commit's own UTC offset, never the host
//! timezone. Cells only ever grow; rendering quantizes each cell onto a
//! fixed ramp of five visual levels.

use crate::time::CommitTime;
use vstd::prelude::*;

verus! {

/// Rows (weekdays, Monday first), columns (hours) and cells of the grid.
pub const HEATMAP_DAYS: usize = 7;

pub const HEATMAP_HOURS: usize = 24;

pub const HEATMAP_CELLS: usize = 168;

/// The cell a commit time falls into: row by local weekday, column by
/// local hour.
pub open spec fn bucket_index(t: CommitTime) -> int {
    t.weekday_index() * 24 + t.hour_index()
}

/// The largest cell value.
pub open spec fn grid_max(s: Seq<u32>) -> int
    decreases s.len(),
{
    if s.len() == 0 {
        0
    } else {
        let m = grid_max(s.drop_last());
        if s.last() > m {
            s.last() as int
        } else {
            m
        }
    }
}

/// The quantization denominator: the largest cell, floored to 1 so an
/// all-zero grid still renders.
pub open spec fn render_max(s: Seq<u32>) -> int {
    if grid_max(s) >= 1 {
        grid_max(s)
    } else {
        1
    }
}

/// The visual level of a cell holding `c` when the largest holds `m`:
/// `c / m` scaled onto the five-level ramp `0..=4` and rounded to the
/// nearest level.
pub open spec fn spec_level(c: int, m: int) -> int {
    (8 * c + m) / (2 * m)
}

proof fn lemma_grid_max_ge(s: Seq<u32>, i: int)
    requires
        0 <= i < s.len(),
    ensures
        s[i] <= grid_max(s),
    decreases s.len(),
{
    if i < s.len() - 1 {
        assert(s.drop_last()[i] == s[i]);
        lemma_grid_max_ge(s.drop_last(), i);
    }
}

/// The commit-time heatmap.
#[derive(Debug)]
pub struct Heatmap {
    counts: Vec<u32>,
}

impl View for Heatmap {
    type V = Seq<u32>;

    closed spec fn view(&self) -> Seq<u32> {
        self.counts@
    }
}

impl Heatmap {
    /// Exactly one cell per weekday/hour pair.
    pub open spec fn wf(&self) -> bool {
        self@.len() == HEATMAP_CELLS
    }

    pub fn new() -> (h: Heatmap)
        ensures
            h.wf(),
            forall|i: int| 0 <= i < h@.len() ==> h@[i] == 0,
    {
        let mut counts: Vec<u32> = Vec::new();
        let mut i: usize = 0;
        while i < HEATMAP_CELLS
            invariant
                i <= HEATMAP_CELLS,
                counts@.len() == i,
                forall|j: int| 0 <= j < i ==> counts@[j] == 0,
            decreases HEATMAP_CELLS - i,
        {
            counts.push(0);
            i += 1;
        }
        Heatmap { counts }
    }

    /// Count one commit: exactly the bucket of its local weekday and
    /// hour grows by one; every other cell is unchanged.
    pub fn append(&mut self, time: &CommitTime)
        requires
            old(self).wf(),
            time.wf(),
            old(self)@[bucket_index(*time)] < u32::MAX,
        ensures
            final(self).wf(),
            final(self)@ == old(self)@.update(
                bucket_index(*time),
                (old(self)@[bucket_index(*time)] + 1) as u32,
            ),
    {
        let day = time.weekday();
        let hour = time.hour();
        let idx: usize = (day as usize) * 24 + (hour as usize);
        let cur = self.counts[idx];
        self.counts[idx] = cur + 1;
    }

    /// The count in one cell.
    pub fn get(&self, day: usize, hour: usize) -> (c: u32)
        requires
            self.wf(),
            day < HEATMAP_DAYS,
            hour < HEATMAP_HOURS,
        ensures
            c == self@[day * 24 + hour],
    {
        self.counts[day * 24 + hour]
    }

    /// The quantization denominator (see [`render_max`]).
    pub fn max_count(&self) -> (m: u32)
        requires
            self.wf(),
        ensures
            m == render_max(self@),
            m >= 1,
    {
        let n = self.counts.len();
        let mut acc: u32 = 0;
        let mut i: usize = 0;
        proof {
            assert(self@.take(0) =~= Seq::<u32>::empty());
        }
        while i < n
            invariant
                n == self@.len(),
                i <= n,
                acc == grid_max(self@.take(i as int)),
            decreases n - i,
        {
            proof {
                assert(self@.take(i as int + 1).drop_last() =~= self@.take(i as int));
                assert(self@.take(i as int + 1).last() == self@[i as int]);
            }
            let c = self.counts[i];
            if c > acc {
                acc = c;
            }
            i += 1;
        }
        proof {
            assert(self@.take(n as int) =~= self@);
        }
        if acc >= 1 {
            acc
        } else {
            1
        }
    }

    /// The visual level of one cell, `0..=4` (see [`spec_level`]).
    pub fn level(&self, day: usize, hour: usize) -> (l: u8)
        requires
            self.wf(),
            day < HEATMAP_DAYS,
            hour < HEATMAP_HOURS,
        ensures
            l == spec_level(self@[day * 24 + hour] as int, render_max(self@)),
            l <= 4,
    {
        let c = self.get(day, hour);
        let m = self.max_count();
        proof {
            lemma_grid_max_ge(self@, day * 24 + hour);
        }
        let l64: u64 = (8 * (c as u64) + (m as u64)) / (2 * (m as u64));
        proof {
            assert(c <= m);
            assert(8 * (c as int) + m <= 9 * (m as int));
            assert((8 * (c as int) + m) / (2 * (m as int)) <= 4) by (nonlinear_arith)
                requires
                    m >= 1,
                    8 * (c as int) + m <= 9 * (m as int),
            ;
        }
        l64 as u8
    }
}

} // verus!
