//! Per-author accumulators and their merge algebra.
//!
//! A [`Stat`] carries one author's running totals: commits, insertions,
//! deletions, surviving (owned) lines, activity calendars by local day and
//! week, and the first and last commit times. Merging is associative and
//! commutative with the empty stat as identity, so per-commit stats may be
//! folded in any grouping and order; the repository total is the same fold.

use crate::countmap::{
    lemma_map_add_assoc, lemma_map_add_comm, lemma_map_add_empty, map_add, val0, CountMap,
};
use crate::mailmap::{spec_format_identity, spec_resolve, format_identity, Mailmap};
use crate::time::{time_le, time_le_exec, CommitTime};
use vstd::prelude::*;
use vstd::seq_lib::{to_multiset_contains, to_multiset_len, to_multiset_remove};

verus! {

/// The mathematical content of a [`Stat`].
#[verifier::ext_equal]
pub struct StatView {
    pub num_commits: nat,
    pub owned_lines: nat,
    pub insertions: nat,
    pub deletions: nat,
    pub days: Map<int, nat>,
    pub weeks: Map<int, nat>,
    pub first: Option<CommitTime>,
    pub last: Option<CommitTime>,
}

/// The earlier of two optional times, an absent time counting as later
/// than any present one (`None` is the identity).
pub open spec fn min_time(a: Option<CommitTime>, b: Option<CommitTime>) -> Option<CommitTime> {
    match (a, b) {
        (Option::None, _) => b,
        (_, Option::None) => a,
        (Option::Some(x), Option::Some(y)) => if time_le(x, y) {
            a
        } else {
            b
        },
    }
}

/// The later of two optional times, an absent time counting as earlier
/// than any present one (`None` is the identity).
pub open spec fn max_time(a: Option<CommitTime>, b: Option<CommitTime>) -> Option<CommitTime> {
    match (a, b) {
        (Option::None, _) => b,
        (_, Option::None) => a,
        (Option::Some(x), Option::Some(y)) => if time_le(x, y) {
            b
        } else {
            a
        },
    }
}

/// The merge operator: summed counters, pointwise-summed calendars, the
/// earliest first time and the latest last time.
pub open spec fn stat_merge(a: StatView, b: StatView) -> StatView {
    StatView {
        num_commits: a.num_commits + b.num_commits,
        owned_lines: a.owned_lines + b.owned_lines,
        insertions: a.insertions + b.insertions,
        deletions: a.deletions + b.deletions,
        days: map_add(a.days, b.days),
        weeks: map_add(a.weeks, b.weeks),
        first: min_time(a.first, b.first),
        last: max_time(a.last, b.last),
    }
}

/// The identity of [`stat_merge`]: all counters zero, empty calendars,
/// no commit times.
pub open spec fn empty_stat() -> StatView {
    StatView {
        num_commits: 0,
        owned_lines: 0,
        insertions: 0,
        deletions: 0,
        days: Map::empty(),
        weeks: Map::empty(),
        first: Option::None,
        last: Option::None,
    }
}

/// The stat a single commit contributes: one commit, its churn, one mark
/// in each calendar, the commit time as both first and last.
pub open spec fn singleton_stat(t: CommitTime, ins: nat, del: nat) -> StatView {
    StatView {
        num_commits: 1,
        owned_lines: 0,
        insertions: ins,
        deletions: del,
        days: Map::empty().insert(t.day_index(), 1),
        weeks: Map::empty().insert(t.week_index(), 1),
        first: Option::Some(t),
        last: Option::Some(t),
    }
}

/// Internal consistency of a stat view: calendar counts never exceed the
/// commit count (each commit marks one day and one week), the two commit
/// times are either both absent or both present and ordered, and present
/// times are in range.
pub open spec fn stat_wf(v: StatView) -> bool {
    &&& forall|k: int| #[trigger] val0(v.days, k) <= v.num_commits
    &&& forall|k: int| #[trigger] val0(v.weeks, k) <= v.num_commits
    &&& match (v.first, v.last) {
        (Option::None, Option::None) => true,
        (Option::Some(f), Option::Some(l)) => time_le(f, l) && f.wf() && l.wf(),
        _ => false,
    }
}

/// The scalar counters of a merge stay within `u64`.
pub open spec fn merge_fits(a: StatView, b: StatView) -> bool {
    &&& a.num_commits + b.num_commits <= u64::MAX
    &&& a.owned_lines + b.owned_lines <= u64::MAX
    &&& a.insertions + b.insertions <= u64::MAX
    &&& a.deletions + b.deletions <= u64::MAX
}

/// Merging preserves a stat's internal consistency: in particular, once
/// both commit times are set, the first stays at or before the last.
pub proof fn lemma_stat_merge_wf(a: StatView, b: StatView)
    requires
        stat_wf(a),
        stat_wf(b),
    ensures
        stat_wf(stat_merge(a, b)),
{
    let m = stat_merge(a, b);
    assert forall|k: int| #[trigger] val0(m.days, k) <= m.num_commits by {
        assert(val0(m.days, k) == val0(a.days, k) + val0(b.days, k));
        assert(val0(a.days, k) <= a.num_commits);
        assert(val0(b.days, k) <= b.num_commits);
    }
    assert forall|k: int| #[trigger] val0(m.weeks, k) <= m.num_commits by {
        assert(val0(m.weeks, k) == val0(a.weeks, k) + val0(b.weeks, k));
        assert(val0(a.weeks, k) <= a.num_commits);
        assert(val0(b.weeks, k) <= b.num_commits);
    }
}

/// The merge operator is commutative: `merge(a, b) == merge(b, a)`,
/// field by field, including the min/max rule for the commit times.
pub proof fn lemma_stat_merge_comm(a: StatView, b: StatView)
    ensures
        stat_merge(a, b) == stat_merge(b, a),
{
    lemma_map_add_comm(a.days, b.days);
    lemma_map_add_comm(a.weeks, b.weeks);
    assert(stat_merge(a, b) =~= stat_merge(b, a));
}

/// The merge operator is associative:
/// `merge(merge(a, b), c) == merge(a, merge(b, c))`.
pub proof fn lemma_stat_merge_assoc(a: StatView, b: StatView, c: StatView)
    ensures
        stat_merge(stat_merge(a, b), c) == stat_merge(a, stat_merge(b, c)),
{
    lemma_map_add_assoc(a.days, b.days, c.days);
    lemma_map_add_assoc(a.weeks, b.weeks, c.weeks);
    assert(stat_merge(stat_merge(a, b), c) =~= stat_merge(a, stat_merge(b, c)));
}

/// The empty stat is the identity of the merge operator:
/// `merge(a, empty) == a`, leaving counters, calendars and times untouched.
pub proof fn lemma_stat_merge_empty(a: StatView)
    ensures
        stat_merge(a, empty_stat()) == a,
{
    lemma_map_add_empty(a.days);
    lemma_map_add_empty(a.weeks);
    assert(stat_merge(a, empty_stat()) =~= a);
}

/// The merge of a sequence of stats, folded from the left.
pub open spec fn fold_stats(s: Seq<StatView>) -> StatView
    decreases s.len(),
{
    if s.len() == 0 {
        empty_stat()
    } else {
        stat_merge(fold_stats(s.drop_last()), s.last())
    }
}

/// Folding a concatenation merges the two folds.
pub proof fn lemma_fold_concat(s1: Seq<StatView>, s2: Seq<StatView>)
    ensures
        fold_stats(s1 + s2) == stat_merge(fold_stats(s1), fold_stats(s2)),
    decreases s2.len(),
{
    if s2.len() == 0 {
        assert(s1 + s2 =~= s1);
        lemma_stat_merge_empty(fold_stats(s1));
    } else {
        assert((s1 + s2).drop_last() =~= s1 + s2.drop_last());
        assert((s1 + s2).last() == s2.last());
        lemma_fold_concat(s1, s2.drop_last());
        lemma_stat_merge_assoc(fold_stats(s1), fold_stats(s2.drop_last()), s2.last());
    }
}

/// Any element can be pulled out of a fold.
pub proof fn lemma_fold_remove(s: Seq<StatView>, i: int)
    requires
        0 <= i < s.len(),
    ensures
        fold_stats(s) == stat_merge(fold_stats(s.remove(i)), s[i]),
    decreases s.len(),
{
    if i == s.len() - 1 {
        assert(s.remove(i) =~= s.drop_last());
    } else {
        let d = s.drop_last();
        lemma_fold_remove(d, i);
        assert(s.remove(i).drop_last() =~= d.remove(i));
        assert(s.remove(i).last() == s.last());
        assert(d[i] == s[i]);
        // fold(s) == merge(merge(fold(d.remove(i)), s[i]), s.last())
        lemma_stat_merge_assoc(fold_stats(d.remove(i)), s[i], s.last());
        lemma_stat_merge_comm(s[i], s.last());
        lemma_stat_merge_assoc(fold_stats(d.remove(i)), s.last(), s[i]);
    }
}

/// Aggregation is order-independent: two sequences with the same stats,
/// however arranged, fold to the same total.
pub proof fn lemma_fold_permutation(s1: Seq<StatView>, s2: Seq<StatView>)
    requires
        s1.to_multiset() == s2.to_multiset(),
    ensures
        fold_stats(s1) == fold_stats(s2),
    decreases s1.len(),
{
    to_multiset_len(s1);
    to_multiset_len(s2);
    if s1.len() > 0 {
        let x = s1.last();
        let li = s1.len() - 1;
        assert(s1[li] == x);
        to_multiset_contains(s1, x);
        to_multiset_contains(s2, x);
        assert(s1.contains(x));
        assert(s2.contains(x));
        let j = choose|j: int| 0 <= j < s2.len() && s2[j] == x;
        lemma_fold_remove(s2, j);
        to_multiset_remove(s1, li);
        to_multiset_remove(s2, j);
        assert(s1.remove(li) =~= s1.drop_last());
        lemma_fold_permutation(s1.drop_last(), s2.remove(j));
    }
}

/// Folding per-group totals equals folding all members of all groups:
/// aggregating per-commit stats by author and then folding the authors
/// gives the same total as folding every per-commit stat directly.
pub proof fn lemma_fold_groups(groups: Seq<Seq<StatView>>)
    ensures
        fold_stats(groups.map_values(|g: Seq<StatView>| fold_stats(g))) == fold_stats(
            groups.flatten(),
        ),
    decreases groups.len(),
{
    groups.lemma_flatten_and_flatten_alt_are_equivalent();
    if groups.len() == 0 {
        assert(groups.map_values(|g: Seq<StatView>| fold_stats(g)) =~= Seq::<StatView>::empty());
        assert(groups.flatten_alt() =~= Seq::<StatView>::empty());
    } else {
        let d = groups.drop_last();
        lemma_fold_groups(d);
        d.lemma_flatten_and_flatten_alt_are_equivalent();
        assert(groups.flatten_alt() == d.flatten_alt() + groups.last());
        lemma_fold_concat(d.flatten_alt(), groups.last());
        let m = groups.map_values(|g: Seq<StatView>| fold_stats(g));
        assert(m.drop_last() =~= d.map_values(|g: Seq<StatView>| fold_stats(g)));
        assert(m.last() == fold_stats(groups.last()));
        assert(fold_stats(m) == stat_merge(fold_stats(m.drop_last()), m.last()));
    }
}

/// One author's running totals.
#[derive(Debug)]
pub struct Stat {
    pub num_commits: u64,
    pub owned_lines: u64,
    pub insertions: u64,
    pub deletions: u64,
    pub activity_days: CountMap,
    pub activity_weeks: CountMap,
    pub first_commit: Option<CommitTime>,
    pub last_commit: Option<CommitTime>,
}

impl View for Stat {
    type V = StatView;

    open spec fn view(&self) -> StatView {
        StatView {
            num_commits: self.num_commits as nat,
            owned_lines: self.owned_lines as nat,
            insertions: self.insertions as nat,
            deletions: self.deletions as nat,
            days: self.activity_days@,
            weeks: self.activity_weeks@,
            first: self.first_commit,
            last: self.last_commit,
        }
    }
}

/// The earlier of two optional times (see [`min_time`]).
pub fn min_time_exec(a: &Option<CommitTime>, b: &Option<CommitTime>) -> (r: Option<CommitTime>)
    ensures
        r == min_time(*a, *b),
{
    match (a, b) {
        (Option::None, _) => *b,
        (_, Option::None) => *a,
        (Option::Some(x), Option::Some(y)) => if time_le_exec(x, y) {
            *a
        } else {
            *b
        },
    }
}

/// The later of two optional times (see [`max_time`]).
pub fn max_time_exec(a: &Option<CommitTime>, b: &Option<CommitTime>) -> (r: Option<CommitTime>)
    ensures
        r == max_time(*a, *b),
{
    match (a, b) {
        (Option::None, _) => *b,
        (_, Option::None) => *a,
        (Option::Some(x), Option::Some(y)) => if time_le_exec(x, y) {
            *b
        } else {
            *a
        },
    }
}

impl Stat {
    /// The representation invariant: sorted calendars and a
    /// well-formed view.
    pub open spec fn wf(&self) -> bool {
        &&& self.activity_days.wf()
        &&& self.activity_weeks.wf()
        &&& stat_wf(self@)
    }

    /// Create empty struct.
    pub fn new() -> (s: Stat)
        ensures
            s@ == empty_stat(),
            s.wf(),
    {
        let s = Stat {
            num_commits: 0,
            owned_lines: 0,
            insertions: 0,
            deletions: 0,
            activity_days: CountMap::new(),
            activity_weeks: CountMap::new(),
            first_commit: Option::None,
            last_commit: Option::None,
        };
        proof {
            assert(s@ =~= empty_stat());
        }
        s
    }

    /// The stat derived from one commit: its time and the diff against its
    /// parent (insertions and deletions).
    pub fn from_commit_diff(time: &CommitTime, insertions: u64, deletions: u64) -> (s: Stat)
        requires
            time.wf(),
        ensures
            s@ == singleton_stat(*time, insertions as nat, deletions as nat),
            s.wf(),
    {
        let mut days = CountMap::new();
        days.add_count(time.day(), 1);
        let mut weeks = CountMap::new();
        weeks.add_count(time.week(), 1);
        let s = Stat {
            num_commits: 1,
            owned_lines: 0,
            insertions,
            deletions,
            activity_days: days,
            activity_weeks: weeks,
            first_commit: Option::Some(*time),
            last_commit: Option::Some(*time),
        };
        proof {
            assert(days@ =~= Map::empty().insert(time.day_index(), 1));
            assert(weeks@ =~= Map::empty().insert(time.week_index(), 1));
            assert(s@ =~= singleton_stat(*time, insertions as nat, deletions as nat));
        }
        s
    }

    /// The merge of two stats (see [`stat_merge`]).
    pub fn merge(&self, rhs: &Stat) -> (r: Stat)
        requires
            self.wf(),
            rhs.wf(),
            merge_fits(self@, rhs@),
        ensures
            r@ == stat_merge(self@, rhs@),
            r.wf(),
    {
        proof {
            assert(forall|k: int|
                val0(self.activity_days@, k) + val0(rhs.activity_days@, k) <= u64::MAX);
            assert(forall|k: int|
                val0(self.activity_weeks@, k) + val0(rhs.activity_weeks@, k) <= u64::MAX);
        }
        let r = Stat {
            num_commits: self.num_commits + rhs.num_commits,
            owned_lines: self.owned_lines + rhs.owned_lines,
            insertions: self.insertions + rhs.insertions,
            deletions: self.deletions + rhs.deletions,
            activity_days: self.activity_days.merge(&rhs.activity_days),
            activity_weeks: self.activity_weeks.merge(&rhs.activity_weeks),
            first_commit: min_time_exec(&self.first_commit, &rhs.first_commit),
            last_commit: max_time_exec(&self.last_commit, &rhs.last_commit),
        };
        proof {
            assert(r@ =~= stat_merge(self@, rhs@));
        }
        r
    }

    /// Merge `rhs` into `self` in place.
    pub fn merge_from(&mut self, rhs: &Stat)
        requires
            old(self).wf(),
            rhs.wf(),
            merge_fits(old(self)@, rhs@),
        ensures
            final(self)@ == stat_merge(old(self)@, rhs@),
            final(self).wf(),
    {
        let merged = self.merge(rhs);
        *self = merged;
    }

    /// Add surviving lines found by the blame pass; touches nothing but
    /// the owned-line counter.
    pub fn add_owned_lines(&mut self, lines: u64)
        requires
            old(self).wf(),
            old(self)@.owned_lines + lines <= u64::MAX,
        ensures
            final(self).wf(),
            final(self)@ == (StatView { owned_lines: (old(self)@.owned_lines + lines) as nat, ..old(self)@ }),
    {
        self.owned_lines = self.owned_lines + lines;
        proof {
            assert(self@ =~= (StatView { owned_lines: (old(self)@.owned_lines + lines) as nat, ..old(self)@ }));
        }
    }

    /// Returns number of days between first and last commits (whole local
    /// days, rounded towards zero).
    pub fn num_days(&self) -> (d: i64)
        requires
            self.wf(),
            self@.first is Some,
        ensures
            d == spec_num_days(self@),
            d >= 0,
    {
        let f = match &self.first_commit {
            Option::Some(f) => *f,
            Option::None => {
                proof {
                    assert(false);
                }
                CommitTime { seconds: 0, offset_minutes: 0 }
            },
        };
        let l = match &self.last_commit {
            Option::Some(l) => *l,
            Option::None => {
                proof {
                    assert(false);
                }
                CommitTime { seconds: 0, offset_minutes: 0 }
            },
        };
        let diff: u64 = (l.seconds - f.seconds) as u64;
        (diff / 86400) as i64
    }
}

/// The whole days between the first and last commit of a stat whose
/// commit times are present.
pub open spec fn spec_num_days(v: StatView) -> int {
    match (v.first, v.last) {
        (Option::Some(f), Option::Some(l)) => (l.seconds - f.seconds) / 86400,
        _ => 0,
    }
}

/// The author metadata of one commit, as the backend reports it.
pub struct CommitMeta {
    pub name: String,
    pub email: String,
    pub time: CommitTime,
}

/// One contiguous run of lines that the blame pass attributes to the
/// signature that last touched them.
pub struct BlameHunk {
    pub name: String,
    pub email: String,
    pub lines: u64,
}

/// The canonical key an identity aggregates under: resolved through the
/// mailmap when one is present, the raw `name <email>` otherwise.
pub open spec fn spec_mapped_name(mm: Option<&Mailmap>, n: Seq<char>, e: Seq<char>) -> Seq<char> {
    match mm {
        Option::Some(m) => spec_resolve(m@, n, e),
        Option::None => spec_format_identity(n, e),
    }
}

/// An optional mailmap that is well-formed when present.
pub open spec fn mailmap_ok(mm: Option<&Mailmap>) -> bool {
    match mm {
        Option::Some(m) => m.wf(),
        Option::None => true,
    }
}

/// The stat stored under `k`, the empty stat when absent.
pub open spec fn stat_or_empty(m: Map<Seq<char>, StatView>, k: Seq<char>) -> StatView {
    if m.dom().contains(k) {
        m[k]
    } else {
        empty_stat()
    }
}

/// The per-author map read off an association list.
pub closed spec fn stats_map(s: Seq<(String, Stat)>) -> Map<Seq<char>, StatView>
    decreases s.len(),
{
    if s.len() == 0 {
        Map::empty()
    } else {
        stats_map(s.drop_last()).insert(s.last().0@, s.last().1@)
    }
}

/// Pairwise distinct author keys, compared as character sequences.
pub open spec fn distinct_stat_keys(s: Seq<(String, Stat)>) -> bool {
    forall|i: int, j: int| 0 <= i < j < s.len() ==> s[i].0@ != s[j].0@
}

/// Every listed stat is well-formed.
pub open spec fn stats_entries_wf(s: Seq<(String, Stat)>) -> bool {
    forall|i: int| 0 <= i < s.len() ==> (#[trigger] s[i].1).wf()
}

proof fn lemma_stats_map_dom(s: Seq<(String, Stat)>)
    ensures
        forall|k: Seq<char>|
            stats_map(s).dom().contains(k) <==> exists|i: int| 0 <= i < s.len() && s[i].0@ == k,
    decreases s.len(),
{
    if s.len() > 0 {
        lemma_stats_map_dom(s.drop_last());
        assert forall|k: Seq<char>|
            stats_map(s).dom().contains(k) <==> exists|i: int|
                0 <= i < s.len() && s[i].0@ == k by {
            if stats_map(s).dom().contains(k) {
                if k == s.last().0@ {
                    assert(s[s.len() - 1].0@ == k);
                } else {
                    assert(stats_map(s.drop_last()).dom().contains(k));
                    let i = choose|i: int|
                        0 <= i < s.drop_last().len() && s.drop_last()[i].0@ == k;
                    assert(s[i].0@ == k);
                }
            }
            if exists|i: int| 0 <= i < s.len() && s[i].0@ == k {
                let i = choose|i: int| 0 <= i < s.len() && s[i].0@ == k;
                if i < s.len() - 1 {
                    assert(s.drop_last()[i].0@ == k);
                    assert(stats_map(s.drop_last()).dom().contains(k));
                } else {
                    assert(k == s.last().0@);
                }
                assert(stats_map(s).dom().contains(k));
            }
        }
    }
}

proof fn lemma_stats_map_index(s: Seq<(String, Stat)>, i: int)
    requires
        distinct_stat_keys(s),
        0 <= i < s.len(),
    ensures
        stats_map(s).dom().contains(s[i].0@),
        stats_map(s)[s[i].0@] == s[i].1@,
    decreases s.len(),
{
    if i < s.len() - 1 {
        assert(distinct_stat_keys(s.drop_last()));
        assert(s.drop_last()[i] == s[i]);
        lemma_stats_map_index(s.drop_last(), i);
        assert(s[i].0@ != s.last().0@);
    }
}

proof fn lemma_stats_map_absent(s: Seq<(String, Stat)>, k: Seq<char>)
    requires
        forall|i: int| 0 <= i < s.len() ==> s[i].0@ != k,
    ensures
        !stats_map(s).dom().contains(k),
{
    lemma_stats_map_dom(s);
    if stats_map(s).dom().contains(k) {
        let i = choose|i: int| 0 <= i < s.len() && s[i].0@ == k;
    }
}

proof fn lemma_stats_map_update(s: Seq<(String, Stat)>, i: int, x: (String, Stat))
    requires
        distinct_stat_keys(s),
        0 <= i < s.len(),
        x.0@ == s[i].0@,
    ensures
        stats_map(s.update(i, x)) == stats_map(s).insert(x.0@, x.1@),
    decreases s.len(),
{
    let t = s.update(i, x);
    if i == s.len() - 1 {
        assert(t.drop_last() =~= s.drop_last());
        assert(stats_map(t) =~= stats_map(s).insert(x.0@, x.1@));
    } else {
        assert(distinct_stat_keys(s.drop_last()));
        assert(s.drop_last()[i] == s[i]);
        lemma_stats_map_update(s.drop_last(), i, x);
        assert(t.drop_last() =~= s.drop_last().update(i, x));
        assert(t.last() == s.last());
        assert(s[i].0@ != s.last().0@);
        assert(stats_map(t) =~= stats_map(s).insert(x.0@, x.1@));
    }
}

proof fn lemma_stats_map_push(s: Seq<(String, Stat)>, x: (String, Stat))
    ensures
        stats_map(s.push(x)) == stats_map(s).insert(x.0@, x.1@),
{
    assert(s.push(x).drop_last() =~= s);
    assert(s.push(x).last() == x);
}

/// The per-author statistics of a whole walk, keyed by canonical
/// identity.
pub struct PersonalStats {
    authors: Vec<(String, Stat)>,
}

impl View for PersonalStats {
    type V = Map<Seq<char>, StatView>;

    closed spec fn view(&self) -> Map<Seq<char>, StatView> {
        stats_map(self.authors@)
    }
}

impl PersonalStats {
    /// The author entries in insertion order.
    pub closed spec fn items(&self) -> Seq<(String, Stat)> {
        self.authors@
    }

    /// The stat views in insertion order; their fold is the
    /// repository total.
    pub open spec fn stat_views(&self) -> Seq<StatView> {
        self.items().map_values(|p: (String, Stat)| p.1@)
    }

    /// Internal consistency: distinct keys, well-formed stats.
    pub open spec fn wf(&self) -> bool {
        distinct_stat_keys(self.items()) && stats_entries_wf(self.items())
    }

    pub fn new() -> (r: PersonalStats)
        ensures
            r.wf(),
            r@ == Map::<Seq<char>, StatView>::empty(),
            r.items().len() == 0,
    {
        PersonalStats { authors: Vec::new() }
    }

    /// How many authors have been seen.
    pub fn len(&self) -> (n: usize)
        ensures
            n == self.items().len(),
    {
        self.authors.len()
    }

    /// The author at position `i`: its canonical identity and a
    /// reference to its stat.
    pub fn author_at(&self, i: usize) -> (r: (&String, &Stat))
        requires
            i < self.items().len(),
        ensures
            *r.0 == self.items()[i as int].0,
            *r.1 == self.items()[i as int].1,
    {
        let p = &self.authors[i];
        (&p.0, &p.1)
    }

    /// The canonical key of a raw identity: resolved through the mailmap
    /// when one is present, the raw `name <email>` otherwise.
    pub fn mapped_name(name: &String, email: &String, mailmap: Option<&Mailmap>) -> (r: String)
        requires
            mailmap_ok(mailmap),
        ensures
            r@ == spec_mapped_name(mailmap, name@, email@),
    {
        match mailmap {
            Option::None => format_identity(name.as_str(), email.as_str()),
            Option::Some(mm) => mm.map_user(name, email),
        }
    }

    /// The position of `key` among the authors, if seen before.
    fn find_author(&self, key: &String) -> (r: Option<usize>)
        ensures
            match r {
                Option::Some(i) => i < self.items().len() && self.items()[i as int].0@ == key@,
                Option::None => forall|j: int|
                    0 <= j < self.items().len() ==> self.items()[j].0@ != key@,
            },
    {
        let n = self.authors.len();
        let mut i: usize = 0;
        while i < n
            invariant
                n == self.items().len(),
                i <= n,
                forall|j: int| 0 <= j < i ==> self.items()[j].0@ != key@,
            decreases n - i,
        {
            if self.authors[i].0 == *key {
                return Option::Some(i);
            }
            i += 1;
        }
        Option::None
    }

    /// Fold one commit into its author's accumulator: the identity is
    /// resolved, and the singleton stat of the commit is merged into the
    /// entry under that key (a fresh author starts from the empty stat).
    pub fn append(
        &mut self,
        commit: &CommitMeta,
        mailmap: Option<&Mailmap>,
        insertions: u64,
        deletions: u64,
    )
        requires
            old(self).wf(),
            commit.time.wf(),
            mailmap_ok(mailmap),
            merge_fits(
                stat_or_empty(old(self)@, spec_mapped_name(mailmap, commit.name@, commit.email@)),
                singleton_stat(commit.time, insertions as nat, deletions as nat),
            ),
        ensures
            final(self).wf(),
            final(self)@ == old(self)@.insert(
                spec_mapped_name(mailmap, commit.name@, commit.email@),
                stat_merge(
                    stat_or_empty(
                        old(self)@,
                        spec_mapped_name(mailmap, commit.name@, commit.email@),
                    ),
                    singleton_stat(commit.time, insertions as nat, deletions as nat),
                ),
            ),
    {
        let key = PersonalStats::mapped_name(&commit.name, &commit.email, mailmap);
        let single = Stat::from_commit_diff(&commit.time, insertions, deletions);
        match self.find_author(&key) {
            Option::Some(i) => {
                proof {
                    lemma_stats_map_index(self.authors@, i as int);
                }
                let (k, mut st) = self.authors.remove(i);
                st.merge_from(&single);
                proof {
                    lemma_stats_map_update(old(self).authors@, i as int, (k, st));
                }
                self.authors.insert(i, (k, st));
                proof {
                    assert(self.authors@ =~= old(self).authors@.update(i as int, (k, st)));
                    assert(forall|j: int|
                        0 <= j < self.authors@.len() ==> (#[trigger] self.authors@[j]).0@ == old(
                            self,
                        ).authors@[j].0@);
                    assert(distinct_stat_keys(self.authors@));
                    assert(stats_entries_wf(self.authors@));
                }
            },
            Option::None => {
                proof {
                    lemma_stats_map_absent(self.authors@, key@);
                    lemma_stats_map_push(self.authors@, (key, single));
                    lemma_stat_merge_comm(
                        empty_stat(),
                        singleton_stat(commit.time, insertions as nat, deletions as nat),
                    );
                    lemma_stat_merge_empty(
                        singleton_stat(commit.time, insertions as nat, deletions as nat),
                    );
                }
                self.authors.push((key, single));
                proof {
                    assert(self.authors@.drop_last() =~= old(self).authors@);
                    assert(distinct_stat_keys(self.authors@)) by {
                        assert(forall|q: int|
                            0 <= q < self.authors@.len() - 1 ==> (#[trigger] self.authors@[q]).0@
                                != self.authors@[self.authors@.len() - 1].0@);
                    }
                    assert(stats_entries_wf(self.authors@));
                }
            },
        }
    }

    /// Fold the blame hunks of the final snapshot into the accumulators
    /// (see [`apply_hunks`]): each hunk's lines are owned by its resolved
    /// identity; identities unseen in the walk start from the empty stat.
    pub fn blame(&mut self, hunks: &Vec<BlameHunk>, mailmap: Option<&Mailmap>)
        requires
            old(self).wf(),
            mailmap_ok(mailmap),
            hunks_fit(old(self)@, hunks@, mailmap),
        ensures
            final(self).wf(),
            final(self)@ == apply_hunks(old(self)@, hunks@, mailmap),
    {
        let n = hunks.len();
        let mut i: usize = 0;
        while i < n
            invariant
                self.wf(),
                n == hunks@.len(),
                i <= n,
                mailmap_ok(mailmap),
                hunks_fit(old(self)@, hunks@, mailmap),
                self@ == apply_hunks(old(self)@, hunks@.take(i as int), mailmap),
            decreases n - i,
        {
            let ghost pre = *self;
            let h = &hunks[i];
            let key = PersonalStats::mapped_name(&h.name, &h.email, mailmap);
            proof {
                lemma_hunks_fit_take(old(self)@, hunks@, mailmap, i + 1);
                assert(hunks@.take(i as int + 1).drop_last() =~= hunks@.take(i as int));
                assert(hunks@.take(i as int + 1).last() == hunks@[i as int]);
                assert(stat_or_empty(pre@, key@).owned_lines + h.lines <= u64::MAX);
            }
            match self.find_author(&key) {
                Option::Some(j) => {
                    proof {
                        lemma_stats_map_index(self.authors@, j as int);
                    }
                    let (k, mut st) = self.authors.remove(j);
                    st.add_owned_lines(h.lines);
                    proof {
                        lemma_stats_map_update(pre.authors@, j as int, (k, st));
                    }
                    self.authors.insert(j, (k, st));
                    proof {
                        assert(self.authors@ =~= pre.authors@.update(j as int, (k, st)));
                        assert(forall|q: int|
                            0 <= q < self.authors@.len() ==> (#[trigger] self.authors@[q]).0@
                                == pre.authors@[q].0@);
                        assert(distinct_stat_keys(self.authors@));
                        assert(stats_entries_wf(self.authors@));
                        assert(st@ =~= (StatView {
                            owned_lines: stat_or_empty(pre@, key@).owned_lines + h.lines as nat,
                            ..stat_or_empty(pre@, key@)
                        }));
                        assert(self@ == apply_hunk(pre@, key@, h.lines as nat));
                    }
                },
                Option::None => {
                    proof {
                        lemma_stats_map_absent(self.authors@, key@);
                    }
                    let mut st = Stat::new();
                    st.add_owned_lines(h.lines);
                    proof {
                        lemma_stats_map_push(self.authors@, (key, st));
                    }
                    self.authors.push((key, st));
                    proof {
                        assert(self.authors@.drop_last() =~= pre.authors@);
                        assert(distinct_stat_keys(self.authors@)) by {
                            assert(forall|q: int|
                                0 <= q < self.authors@.len() - 1 ==> (#[trigger] self.authors@[q]).0@
                                    != self.authors@[self.authors@.len() - 1].0@);
                        }
                        assert(stats_entries_wf(self.authors@));
                        assert(st@ =~= (StatView {
                            owned_lines: stat_or_empty(pre@, key@).owned_lines + h.lines as nat,
                            ..stat_or_empty(pre@, key@)
                        }));
                        assert(self@ == apply_hunk(pre@, key@, h.lines as nat));
                    }
                },
            }
            i += 1;
        }
        proof {
            assert(hunks@.take(n as int) =~= hunks@);
        }
    }

    /// The repository-wide total: every author's stat folded with the
    /// merge operator.
    pub fn total(&self) -> (r: Stat)
        requires
            self.wf(),
            counters_fit(fold_stats(self.stat_views())),
        ensures
            r.wf(),
            r@ == fold_stats(self.stat_views()),
    {
        let n = self.authors.len();
        let mut acc = Stat::new();
        let mut i: usize = 0;
        proof {
            assert(self.stat_views().take(0) =~= Seq::<StatView>::empty());
        }
        while i < n
            invariant
                self.wf(),
                counters_fit(fold_stats(self.stat_views())),
                n == self.items().len(),
                i <= n,
                acc.wf(),
                acc@ == fold_stats(self.stat_views().take(i as int)),
            decreases n - i,
        {
            proof {
                assert(self.stat_views().take(i as int + 1).drop_last() =~= self.stat_views().take(
                    i as int,
                ));
                assert(self.stat_views().take(i as int + 1).last() == self.authors@[i as int].1@);
                lemma_fold_take_le(self.stat_views(), i as int + 1);
                assert(self.items()[i as int].1.wf());
            }
            acc = acc.merge(&self.authors[i].1);
            i += 1;
        }
        proof {
            assert(self.stat_views().take(n as int) =~= self.stat_views());
        }
        acc
    }

    /// The repository-wide total, or `None` when a counter would not fit.
    pub fn try_total(&self) -> (r: Option<Stat>)
        requires
            self.wf(),
        ensures
            match r {
                Option::Some(t) => t.wf() && t@ == fold_stats(self.stat_views()) && counters_fit(
                    fold_stats(self.stat_views()),
                ),
                Option::None => !counters_fit(fold_stats(self.stat_views())),
            },
    {
        let n = self.authors.len();
        let mut acc = Stat::new();
        let mut i: usize = 0;
        proof {
            assert(self.stat_views().take(0) =~= Seq::<StatView>::empty());
        }
        while i < n
            invariant
                self.wf(),
                n == self.items().len(),
                i <= n,
                acc.wf(),
                acc@ == fold_stats(self.stat_views().take(i as int)),
            decreases n - i,
        {
            proof {
                assert(self.stat_views().take(i as int + 1).drop_last() =~= self.stat_views().take(
                    i as int,
                ));
                assert(self.stat_views().take(i as int + 1).last() == self.authors@[i as int].1@);
                assert(self.items()[i as int].1.wf());
            }
            let entry = &self.authors[i].1;
            let fits = acc.num_commits.checked_add(entry.num_commits).is_some()
                && acc.owned_lines.checked_add(entry.owned_lines).is_some()
                && acc.insertions.checked_add(entry.insertions).is_some()
                && acc.deletions.checked_add(entry.deletions).is_some();
            if !fits {
                proof {
                    lemma_fold_take_le(self.stat_views(), i as int + 1);
                }
                return Option::None;
            }
            acc = acc.merge(entry);
            i += 1;
        }
        proof {
            assert(self.stat_views().take(n as int) =~= self.stat_views());
        }
        Option::Some(acc)
    }
}

/// One blame hunk folded in: the resolved identity's surviving-line
/// count grows by the hunk's lines; an unseen identity starts from the
/// empty stat. Nothing else changes.
pub open spec fn apply_hunk(
    m: Map<Seq<char>, StatView>,
    k: Seq<char>,
    lines: nat,
) -> Map<Seq<char>, StatView> {
    let cur = stat_or_empty(m, k);
    m.insert(k, StatView { owned_lines: cur.owned_lines + lines, ..cur })
}

/// The canonical key a hunk's lines are attributed to.
pub open spec fn hunk_key(mm: Option<&Mailmap>, h: BlameHunk) -> Seq<char> {
    spec_mapped_name(mm, h.name@, h.email@)
}

/// A sequence of hunks folded in, first to last.
pub open spec fn apply_hunks(
    m: Map<Seq<char>, StatView>,
    hunks: Seq<BlameHunk>,
    mm: Option<&Mailmap>,
) -> Map<Seq<char>, StatView>
    decreases hunks.len(),
{
    if hunks.len() == 0 {
        m
    } else {
        apply_hunk(
            apply_hunks(m, hunks.drop_last(), mm),
            hunk_key(mm, hunks.last()),
            hunks.last().lines as nat,
        )
    }
}

/// Every owned-line counter stays within `u64` while the hunks fold in.
pub open spec fn hunks_fit(
    m: Map<Seq<char>, StatView>,
    hunks: Seq<BlameHunk>,
    mm: Option<&Mailmap>,
) -> bool
    decreases hunks.len(),
{
    if hunks.len() == 0 {
        true
    } else {
        hunks_fit(m, hunks.drop_last(), mm) && stat_or_empty(
            apply_hunks(m, hunks.drop_last(), mm),
            hunk_key(mm, hunks.last()),
        ).owned_lines + hunks.last().lines <= u64::MAX
    }
}

proof fn lemma_hunks_fit_take(
    m: Map<Seq<char>, StatView>,
    hunks: Seq<BlameHunk>,
    mm: Option<&Mailmap>,
    i: int,
)
    requires
        hunks_fit(m, hunks, mm),
        0 <= i <= hunks.len(),
    ensures
        hunks_fit(m, hunks.take(i), mm),
    decreases hunks.len() - i,
{
    if i == hunks.len() {
        assert(hunks.take(i) =~= hunks);
    } else {
        lemma_hunks_fit_take(m, hunks, mm, i + 1);
        assert(hunks.take(i + 1).drop_last() =~= hunks.take(i));
    }
}

/// All four scalar counters fit in `u64`.
pub open spec fn counters_fit(v: StatView) -> bool {
    &&& v.num_commits <= u64::MAX
    &&& v.owned_lines <= u64::MAX
    &&& v.insertions <= u64::MAX
    &&& v.deletions <= u64::MAX
}

/// The four scalar counters of `a` are at most those of `b`.
pub open spec fn counters_le(a: StatView, b: StatView) -> bool {
    &&& a.num_commits <= b.num_commits
    &&& a.owned_lines <= b.owned_lines
    &&& a.insertions <= b.insertions
    &&& a.deletions <= b.deletions
}

proof fn lemma_fold_take_le(s: Seq<StatView>, i: int)
    requires
        0 <= i <= s.len(),
    ensures
        counters_le(fold_stats(s.take(i)), fold_stats(s)),
    decreases s.len(),
{
    if i == s.len() {
        assert(s.take(i) =~= s);
    } else {
        let d = s.drop_last();
        assert(s.take(i) =~= d.take(i));
        lemma_fold_take_le(d, i);
    }
}

} // verus!
