use gitostat::heatmap::Heatmap;
use gitostat::time::CommitTime;

#[test]
fn heatmap_smoke() {
    let mut hm = Heatmap::new();
    // Sun, 28 Jun 2015 13:17:20 +0600
    hm.append(&CommitTime::new(1435475840, 6 * 60));
    assert_eq!(hm.get(6, 13), 1);
}

#[test]
fn append_touches_exactly_one_bucket() {
    let mut hm = Heatmap::new();
    hm.append(&CommitTime::new(1435475840, 6 * 60));
    for day in 0..7 {
        for hour in 0..24 {
            let expected = if day == 6 && hour == 13 { 1 } else { 0 };
            assert_eq!(hm.get(day, hour), expected);
        }
    }
    // A second commit in the same local hour lands in the same bucket.
    hm.append(&CommitTime::new(1435475840 + 60, 6 * 60));
    assert_eq!(hm.get(6, 13), 2);
}

#[test]
fn bucket_uses_commit_offset_not_utc() {
    let mut hm = Heatmap::new();
    // 23:30 UTC on a Monday; at +0200 it is 01:30 on Tuesday.
    // Mon, 5 Jan 2015 23:30:00 UTC = 1420500600.
    hm.append(&CommitTime::new(1420500600, 120));
    assert_eq!(hm.get(1, 1), 1);
    assert_eq!(hm.get(0, 23), 0);
}

#[test]
fn empty_grid_levels_are_zero() {
    let hm = Heatmap::new();
    assert_eq!(hm.max_count(), 1);
    assert_eq!(hm.level(3, 12), 0);
}

#[test]
fn level_quantizes_onto_five_steps() {
    let mut hm = Heatmap::new();
    // Four commits Monday 00h (the maximum), one commit Tuesday 00h,
    // two commits Wednesday 00h, three commits Thursday 00h.
    // Monday 00:00 local at offset 0: 1420416000 = Mon, 5 Jan 2015.
    let day = 86400;
    let monday = 1420416000i64;
    for _ in 0..4 {
        hm.append(&CommitTime::new(monday, 0));
    }
    hm.append(&CommitTime::new(monday + day, 0));
    for _ in 0..2 {
        hm.append(&CommitTime::new(monday + 2 * day, 0));
    }
    for _ in 0..3 {
        hm.append(&CommitTime::new(monday + 3 * day, 0));
    }
    assert_eq!(hm.max_count(), 4);
    assert_eq!(hm.level(0, 0), 4); // 4/4 -> top of the ramp
    assert_eq!(hm.level(1, 0), 1); // round(1/4 * 4) = 1
    assert_eq!(hm.level(2, 0), 2); // round(2/4 * 4) = 2
    assert_eq!(hm.level(3, 0), 3); // round(3/4 * 4) = 3
    assert_eq!(hm.level(4, 0), 0); // empty cell
}
