//! The walk orchestration: one structure accumulating everything a
//! repository walk produces, and the integer derivations the rendering
//! layer needs (percentages and bar widths).
//!
//! Callers drive the walk: for each qualifying commit they hand in its
//! metadata, its diff stats and its tree's file count; after the walk
//! they hand in the blame hunks of the final snapshot.

use crate::countmap::{raise_to, CountMap};
use crate::heatmap::{bucket_index, Heatmap};
use crate::mailmap::Mailmap;
use crate::personal::{
    apply_hunks, hunks_fit, mailmap_ok, merge_fits, singleton_stat, spec_mapped_name, stat_merge,
    stat_or_empty, BlameHunk, CommitMeta, PersonalStats,
};
use vstd::prelude::*;

verus! {

/// Whether a commit contributes to the statistics: root and
/// single-parent commits do; merge commits are excluded, since a diff
/// against one parent would misrepresent their churn.
pub fn counts_commit(parent_count: usize) -> (r: bool)
    ensures
        r == (parent_count <= 1),
{
    parent_count <= 1
}

/// The top-level result of a walk: per-author stats keyed by canonical
/// identity, the commit-time heatmap, and the largest file count seen
/// in each week.
pub struct RepositoryStats {
    pub authors: PersonalStats,
    pub heatmap: Heatmap,
    pub week_files: CountMap,
}

impl RepositoryStats {
    pub open spec fn wf(&self) -> bool {
        self.authors.wf() && self.heatmap.wf() && self.week_files.wf()
    }

    pub fn new() -> (r: RepositoryStats)
        ensures
            r.wf(),
            r.authors@ == Map::<Seq<char>, crate::personal::StatView>::empty(),
            forall|i: int| 0 <= i < r.heatmap@.len() ==> r.heatmap@[i] == 0,
            r.week_files@ == Map::<int, nat>::empty(),
    {
        RepositoryStats {
            authors: PersonalStats::new(),
            heatmap: Heatmap::new(),
            week_files: CountMap::new(),
        }
    }

    /// Fold one commit into the walk: count its local time in the
    /// heatmap, merge its stat under its resolved identity, and raise
    /// its week's file count to `num_files` where that is higher.
    pub fn record_commit(
        &mut self,
        commit: &CommitMeta,
        mailmap: Option<&Mailmap>,
        insertions: u64,
        deletions: u64,
        num_files: u64,
    )
        requires
            old(self).wf(),
            commit.time.wf(),
            mailmap_ok(mailmap),
            merge_fits(
                stat_or_empty(
                    old(self).authors@,
                    spec_mapped_name(mailmap, commit.name@, commit.email@),
                ),
                singleton_stat(commit.time, insertions as nat, deletions as nat),
            ),
            old(self).heatmap@[bucket_index(commit.time)] < u32::MAX,
        ensures
            final(self).wf(),
            final(self).heatmap@ == old(self).heatmap@.update(
                bucket_index(commit.time),
                (old(self).heatmap@[bucket_index(commit.time)] + 1) as u32,
            ),
            final(self).authors@ == old(self).authors@.insert(
                spec_mapped_name(mailmap, commit.name@, commit.email@),
                stat_merge(
                    stat_or_empty(
                        old(self).authors@,
                        spec_mapped_name(mailmap, commit.name@, commit.email@),
                    ),
                    singleton_stat(commit.time, insertions as nat, deletions as nat),
                ),
            ),
            final(self).week_files@ == raise_to(
                old(self).week_files@,
                commit.time.week_index(),
                num_files as nat,
            ),
    {
        self.heatmap.append(&commit.time);
        self.authors.append(commit, mailmap, insertions, deletions);
        let wk = commit.time.week();
        self.week_files.update_max(wk, num_files);
    }

    /// The blame pass over the final snapshot: attribute each hunk's
    /// surviving lines to its resolved identity. Runs after the walk;
    /// it touches nothing but the owned-line counters.
    pub fn attribute_ownership(&mut self, hunks: &Vec<BlameHunk>, mailmap: Option<&Mailmap>)
        requires
            old(self).wf(),
            mailmap_ok(mailmap),
            hunks_fit(old(self).authors@, hunks@, mailmap),
        ensures
            final(self).wf(),
            final(self).authors@ == apply_hunks(old(self).authors@, hunks@, mailmap),
            final(self).heatmap == old(self).heatmap,
            final(self).week_files == old(self).week_files,
    {
        self.authors.blame(hunks, mailmap);
    }
}

/// `part` of `whole` as a percentage in hundredths (two decimals),
/// rounded to nearest. A zero `whole` yields zero rather than an error;
/// a result beyond `u64` is clamped to the type bound.
pub open spec fn spec_percent_x100(part: nat, whole: nat) -> int {
    if whole == 0 {
        0
    } else {
        let v = (20000 * part + whole) / (2 * whole);
        if v > u64::MAX {
            u64::MAX as int
        } else {
            v as int
        }
    }
}

/// `part` of `whole` in hundredths of a percent (see
/// [`spec_percent_x100`]).
pub fn percent_x100(part: u64, whole: u64) -> (r: u64)
    ensures
        r == spec_percent_x100(part as nat, whole as nat),
{
    if whole == 0 {
        return 0;
    }
    let num: u128 = 20000u128 * (part as u128) + (whole as u128);
    let den: u128 = 2u128 * (whole as u128);
    let v: u128 = num / den;
    if v > (u64::MAX as u128) {
        u64::MAX
    } else {
        v as u64
    }
}

/// The bar of a weekly value: scaled by `width / max` and rounded to
/// nearest when the largest value `max` exceeds the width, unscaled
/// otherwise.
pub open spec fn spec_bar_width(v: nat, max: nat, width: nat) -> int {
    if max > width {
        ((2 * v * width + max) / (2 * max)) as int
    } else {
        v as int
    }
}

/// The bar of a weekly value (see [`spec_bar_width`]).
pub fn bar_width(v: u64, max: u64, width: u64) -> (r: u64)
    requires
        v <= max,
        width <= 0xFFFF_FFFF,
    ensures
        r == spec_bar_width(v as nat, max as nat, width as nat),
        r <= max,
{
    if max > width {
        proof {
            let vi = v as int;
            let wi = width as int;
            let mi = max as int;
            assert(2 * vi * wi + mi <= 2 * 0xFFFFFFFFFFFFFFFF * 0xFFFFFFFF
                + 0xFFFFFFFFFFFFFFFF) by (nonlinear_arith)
                requires
                    0 <= vi <= 0xFFFFFFFFFFFFFFFF,
                    0 <= wi <= 0xFFFFFFFF,
                    0 <= mi <= 0xFFFFFFFFFFFFFFFF,
            ;
            assert((2 * vi * wi + mi) / (2 * mi) <= wi) by (nonlinear_arith)
                requires
                    0 < mi,
                    0 <= wi,
                    0 <= vi <= mi,
            ;
            assert((2 * vi * wi + mi) / (2 * mi) >= 0) by (nonlinear_arith)
                requires
                    0 < mi,
                    0 <= wi,
                    0 <= vi,
            ;
        }
        let num: u128 = 2u128 * (v as u128) * (width as u128) + (max as u128);
        let den: u128 = 2u128 * (max as u128);
        let r: u128 = num / den;
        r as u64
    } else {
        v
    }
}

} // verus!
