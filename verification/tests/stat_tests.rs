use gitostat::personal::{BlameHunk, CommitMeta, PersonalStats, Stat};
use gitostat::time::CommitTime;

fn t(seconds: i64) -> CommitTime {
    CommitTime::new(seconds, 0)
}

fn assert_stat_eq(a: &Stat, b: &Stat) {
    assert_eq!(a.num_commits, b.num_commits);
    assert_eq!(a.owned_lines, b.owned_lines);
    assert_eq!(a.insertions, b.insertions);
    assert_eq!(a.deletions, b.deletions);
    assert_eq!(a.first_commit, b.first_commit);
    assert_eq!(a.last_commit, b.last_commit);
    assert_eq!(a.activity_days.len(), b.activity_days.len());
    for i in 0..a.activity_days.len() {
        assert_eq!(a.activity_days.item_at(i), b.activity_days.item_at(i));
    }
    assert_eq!(a.activity_weeks.len(), b.activity_weeks.len());
    for i in 0..a.activity_weeks.len() {
        assert_eq!(a.activity_weeks.item_at(i), b.activity_weeks.item_at(i));
    }
}

#[test]
fn singleton_stat_from_commit_diff() {
    let time = t(1435475840);
    let s = Stat::from_commit_diff(&time, 10, 2);
    assert_eq!(s.num_commits, 1);
    assert_eq!(s.insertions, 10);
    assert_eq!(s.deletions, 2);
    assert_eq!(s.owned_lines, 0);
    assert_eq!(s.first_commit, Some(time));
    assert_eq!(s.last_commit, Some(time));
    assert_eq!(s.activity_days.len(), 1);
    assert_eq!(s.activity_days.get(time.day()), 1);
    assert_eq!(s.activity_weeks.get(time.week()), 1);
}

#[test]
fn merge_is_commutative_on_values() {
    let a = Stat::from_commit_diff(&t(100_000), 10, 0);
    let b = Stat::from_commit_diff(&t(900_000), 5, 2);
    let ab = a.merge(&b);
    let ba = b.merge(&a);
    assert_stat_eq(&ab, &ba);
    assert_eq!(ab.num_commits, 2);
    assert_eq!(ab.insertions, 15);
    assert_eq!(ab.deletions, 2);
    assert_eq!(ab.first_commit, Some(t(100_000)));
    assert_eq!(ab.last_commit, Some(t(900_000)));
}

#[test]
fn merge_is_associative_on_values() {
    let a = Stat::from_commit_diff(&t(100_000), 1, 1);
    let b = Stat::from_commit_diff(&t(200_000), 2, 2);
    let c = Stat::from_commit_diff(&t(300_000), 3, 3);
    let left = a.merge(&b).merge(&c);
    let right = a.merge(&b.merge(&c));
    assert_stat_eq(&left, &right);
}

#[test]
fn empty_stat_is_the_merge_identity() {
    let a = Stat::from_commit_diff(&t(123_456), 7, 3);
    let merged = a.merge(&Stat::new());
    assert_stat_eq(&merged, &a);
    let merged2 = Stat::new().merge(&a);
    assert_stat_eq(&merged2, &a);
}

#[test]
fn same_day_commits_share_a_calendar_mark() {
    let a = Stat::from_commit_diff(&t(100_000), 1, 0);
    let b = Stat::from_commit_diff(&t(100_500), 1, 0);
    let m = a.merge(&b);
    assert_eq!(m.activity_days.len(), 1);
    assert_eq!(m.activity_days.get(t(100_000).day()), 2);
}

#[test]
fn num_days_spans_first_to_last() {
    let a = Stat::from_commit_diff(&t(0), 1, 0);
    let b = Stat::from_commit_diff(&t(2 * 86400 + 7200), 1, 0);
    let m = a.merge(&b);
    assert_eq!(m.num_days(), 2);
    let single = Stat::from_commit_diff(&t(50_000), 1, 0);
    assert_eq!(single.num_days(), 0);
}

#[test]
fn merge_from_accumulates_in_place() {
    let mut acc = Stat::new();
    acc.merge_from(&Stat::from_commit_diff(&t(1_000), 4, 1));
    acc.merge_from(&Stat::from_commit_diff(&t(2_000), 6, 0));
    assert_eq!(acc.num_commits, 2);
    assert_eq!(acc.insertions, 10);
    assert_eq!(acc.deletions, 1);
}

#[test]
fn total_folds_all_authors() {
    let mut stats = PersonalStats::new();
    let alice = CommitMeta {
        name: "Alice".to_string(),
        email: "alice@x.com".to_string(),
        time: t(100_000),
    };
    let bob = CommitMeta {
        name: "Bob".to_string(),
        email: "bob@x.com".to_string(),
        time: t(200_000),
    };
    stats.append(&alice, None, 10, 0);
    stats.append(&bob, None, 5, 2);
    stats.append(&alice, None, 1, 1);
    let total = stats.total();
    assert_eq!(total.num_commits, 3);
    assert_eq!(total.insertions, 16);
    assert_eq!(total.deletions, 3);
    assert_eq!(total.first_commit, Some(t(100_000)));
    assert_eq!(total.last_commit, Some(t(200_000)));
    let try_total = stats.try_total().expect("counters fit");
    assert_stat_eq(&total, &try_total);
}

#[test]
fn try_total_reports_overflow() {
    let mut stats = PersonalStats::new();
    let a = CommitMeta {
        name: "A".to_string(),
        email: "a@x.com".to_string(),
        time: t(1_000),
    };
    let b = CommitMeta {
        name: "B".to_string(),
        email: "b@x.com".to_string(),
        time: t(2_000),
    };
    stats.append(&a, None, u64::MAX, 0);
    stats.append(&b, None, u64::MAX, 0);
    assert!(stats.try_total().is_none());
}

#[test]
fn blame_adds_owned_lines_only() {
    let mut stats = PersonalStats::new();
    let alice = CommitMeta {
        name: "Alice".to_string(),
        email: "alice@x.com".to_string(),
        time: t(100_000),
    };
    stats.append(&alice, None, 10, 0);
    let hunks = vec![
        BlameHunk { name: "Alice".to_string(), email: "alice@x.com".to_string(), lines: 6 },
        BlameHunk { name: "Alice".to_string(), email: "alice@x.com".to_string(), lines: 4 },
        // An identity unseen in the walk gets a zero-initialized entry.
        BlameHunk { name: "Ghost".to_string(), email: "ghost@x.com".to_string(), lines: 3 },
    ];
    stats.blame(&hunks, None);
    assert_eq!(stats.len(), 2);
    let (k0, s0) = stats.author_at(0);
    assert_eq!(k0, "Alice <alice@x.com>");
    assert_eq!(s0.owned_lines, 10);
    assert_eq!(s0.num_commits, 1);
    assert_eq!(s0.insertions, 10);
    let (k1, s1) = stats.author_at(1);
    assert_eq!(k1, "Ghost <ghost@x.com>");
    assert_eq!(s1.owned_lines, 3);
    assert_eq!(s1.num_commits, 0);
}
