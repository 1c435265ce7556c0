use gitostat::countmap::CountMap;
use gitostat::engine::{bar_width, counts_commit, percent_x100, RepositoryStats};
use gitostat::personal::{BlameHunk, CommitMeta};
use gitostat::time::CommitTime;

#[test]
fn merge_commits_are_excluded() {
    assert!(counts_commit(0));
    assert!(counts_commit(1));
    assert!(!counts_commit(2));
    assert!(!counts_commit(3));
}

#[test]
fn percent_in_hundredths_rounds_to_nearest() {
    assert_eq!(percent_x100(1, 3), 3333); // 33.33%
    assert_eq!(percent_x100(2, 3), 6667); // 66.67%
    assert_eq!(percent_x100(1, 2), 5000); // 50.00%
    assert_eq!(percent_x100(5, 2), 25000); // 250.00%
    assert_eq!(percent_x100(0, 7), 0);
    // A zero denominator yields zero, not an error.
    assert_eq!(percent_x100(7, 0), 0);
    // A result beyond the type clamps at its bound.
    assert_eq!(percent_x100(u64::MAX, 1), u64::MAX);
}

#[test]
fn bar_width_scales_only_above_the_width() {
    // Largest value within the width: unscaled.
    assert_eq!(bar_width(10, 40, 60), 10);
    // Largest value beyond the width: scaled and rounded.
    assert_eq!(bar_width(30, 120, 60), 15); // 30 * 60/120
    assert_eq!(bar_width(120, 120, 60), 60);
    assert_eq!(bar_width(1, 120, 60), 1); // round(0.5) at halfway
    assert_eq!(bar_width(0, 120, 60), 0);
}

#[test]
fn countmap_merge_sums_pointwise() {
    let mut a = CountMap::new();
    a.add_count(1, 2);
    a.add_count(5, 3);
    let mut b = CountMap::new();
    b.add_count(5, 4);
    b.add_count(7, 1);
    let m = a.merge(&b);
    assert_eq!(m.get(1), 2);
    assert_eq!(m.get(5), 7);
    assert_eq!(m.get(7), 1);
    assert_eq!(m.get(9), 0);
    assert_eq!(m.len(), 3);
    // Sorted iteration order.
    assert_eq!(m.item_at(0), (1, 2));
    assert_eq!(m.item_at(1), (5, 7));
    assert_eq!(m.item_at(2), (7, 1));
}

#[test]
fn countmap_update_max_keeps_the_larger() {
    let mut m = CountMap::new();
    m.update_max(10, 4);
    m.update_max(10, 2);
    assert_eq!(m.get(10), 4);
    m.update_max(10, 9);
    assert_eq!(m.get(10), 9);
}

#[test]
fn countmap_series_reads_consecutive_keys() {
    let mut m = CountMap::new();
    m.add_count(3, 5);
    m.add_count(5, 7);
    let s = m.series(2, 5);
    assert_eq!(s, vec![0, 5, 0, 7, 0]);
}

#[test]
fn weekday_and_hour_derivations() {
    // The epoch fell on a Thursday.
    let epoch = CommitTime::new(0, 0);
    assert_eq!(epoch.weekday(), 3);
    assert_eq!(epoch.hour(), 0);
    assert_eq!(epoch.day(), 0);
    assert_eq!(epoch.week(), 0);
    // One second before the epoch, still at UTC: Wednesday 23h.
    let before = CommitTime::new(-1, 0);
    assert_eq!(before.weekday(), 2);
    assert_eq!(before.hour(), 23);
    assert_eq!(before.day(), -1);
    // A negative offset can move the local day back as well.
    let shifted = CommitTime::new(0, -60);
    assert_eq!(shifted.weekday(), 2);
    assert_eq!(shifted.hour(), 23);
}

#[test]
fn end_to_end_two_commits_and_blame() {
    // First commit adds a.rs (10 insertions); the second, by a different
    // author, adds b.py (5 insertions, 2 deletions).
    let mut repo = RepositoryStats::new();
    let alice = CommitMeta {
        name: "Alice".to_string(),
        email: "alice@x.com".to_string(),
        time: CommitTime::new(1_435_475_840, 360),
    };
    let bob = CommitMeta {
        name: "Bob".to_string(),
        email: "bob@x.com".to_string(),
        time: CommitTime::new(1_435_562_240, 0),
    };
    repo.record_commit(&alice, None, 10, 0, 1);
    repo.record_commit(&bob, None, 5, 2, 2);

    assert_eq!(repo.authors.len(), 2);
    let (k0, s0) = repo.authors.author_at(0);
    assert_eq!(k0, "Alice <alice@x.com>");
    assert_eq!(s0.num_commits, 1);
    let (k1, s1) = repo.authors.author_at(1);
    assert_eq!(k1, "Bob <bob@x.com>");
    assert_eq!(s1.num_commits, 1);

    let total = repo.authors.total();
    assert_eq!(total.num_commits, 2);
    assert_eq!(total.insertions, 15);
    assert_eq!(total.deletions, 2);

    // The heatmap counted both commits, each in its own local bucket.
    assert_eq!(repo.heatmap.get(6, 13), 1);

    // The weekly file-count series records the maximum seen per week;
    // the Sunday commit closes one week, the Monday commit opens the next.
    assert_eq!(repo.week_files.get(alice.time.week()), 1);
    assert_eq!(repo.week_files.get(bob.time.week()), 2);
    assert_eq!(bob.time.week(), alice.time.week() + 1);

    // Blame over the final snapshot: all surviving lines of a.rs belong
    // to the first author, all of b.py to the second.
    let hunks = vec![
        BlameHunk { name: "Alice".to_string(), email: "alice@x.com".to_string(), lines: 10 },
        BlameHunk { name: "Bob".to_string(), email: "bob@x.com".to_string(), lines: 5 },
    ];
    repo.attribute_ownership(&hunks, None);
    let (_, s0) = repo.authors.author_at(0);
    assert_eq!(s0.owned_lines, 10);
    let (_, s1) = repo.authors.author_at(1);
    assert_eq!(s1.owned_lines, 5);
    let total = repo.authors.total();
    assert_eq!(total.owned_lines, 15);
}
