use gitostat::mailmap::{Author, Mailmap};
use gitostat::personal::{CommitMeta, PersonalStats};
use gitostat::time::CommitTime;

fn lines(ls: &[&str]) -> Vec<String> {
    ls.iter().map(|l| l.to_string()).collect()
}

#[test]
fn unmapped_email_keeps_raw_identity() {
    let mm = Mailmap::new(&lines(&["Canonical <new@x.com> <old@x.com>"]));
    let name = "Someone".to_string();
    let email = "someone@y.org".to_string();
    assert_eq!(mm.map_user(&name, &email), "Someone <someone@y.org>");
}

#[test]
fn default_rule_replaces_name_and_email() {
    let mm = Mailmap::new(&lines(&["Canonical <new@x.com> <old@x.com>"]));
    let name = "Old Alias".to_string();
    let email = "old@x.com".to_string();
    assert_eq!(mm.map_user(&name, &email), "Canonical <new@x.com>");
}

#[test]
fn name_specific_rule_wins_over_default() {
    let mm = Mailmap::new(&lines(&[
        "Shared Default <default@x.com> <shared@x.com>",
        "Proper One <one@x.com> Alias One <shared@x.com>",
    ]));
    let email = "shared@x.com".to_string();
    let alias = "Alias One".to_string();
    assert_eq!(mm.map_user(&alias, &email), "Proper One <one@x.com>");
    // A name without its own entry falls back to the rule's default.
    let other = "Somebody Else".to_string();
    assert_eq!(mm.map_user(&other, &email), "Shared Default <default@x.com>");
}

#[test]
fn single_email_rule_replaces_name_only() {
    let mm = Mailmap::new(&lines(&["Joe Developer <joe@x.com>"]));
    let name = "J. Dev".to_string();
    let email = "joe@x.com".to_string();
    assert_eq!(mm.map_user(&name, &email), "Joe Developer <joe@x.com>");
}

#[test]
fn comments_and_malformed_lines_are_skipped() {
    let mm = Mailmap::new(&lines(&[
        "# a comment <c@x.com> <d@x.com>",
        "no brackets at all",
        "<>",
        "",
        "Canonical <new@x.com> <old@x.com>",
    ]));
    let name = "X".to_string();
    let old = "old@x.com".to_string();
    let c = "c@x.com".to_string();
    let d = "d@x.com".to_string();
    assert_eq!(mm.map_user(&name, &old), "Canonical <new@x.com>");
    assert_eq!(mm.map_user(&name, &c), "X <c@x.com>");
    assert_eq!(mm.map_user(&name, &d), "X <d@x.com>");
}

#[test]
fn later_rules_override_earlier_ones() {
    let mm = Mailmap::new(&lines(&[
        "First <first@x.com> <old@x.com>",
        "Second <second@x.com> <old@x.com>",
    ]));
    let name = "X".to_string();
    let email = "old@x.com".to_string();
    assert_eq!(mm.map_user(&name, &email), "Second <second@x.com>");
}

#[test]
fn whitespace_around_fields_is_trimmed() {
    let mm = Mailmap::new(&lines(&["  Padded Name   < new@x.com >   < old@x.com > extra"]));
    let name = "X".to_string();
    let email = "old@x.com".to_string();
    assert_eq!(mm.map_user(&name, &email), "Padded Name <new@x.com>");
}

#[test]
fn mapped_commits_merge_with_directly_canonical_ones() {
    // A commit authored under the old email must aggregate under the
    // canonical identity, merging with commits authored there directly.
    let mm = Mailmap::new(&lines(&["Canonical Name <new@x.com> <old@x.com>"]));
    let mut stats = PersonalStats::new();
    let c1 = CommitMeta {
        name: "Old Name".to_string(),
        email: "old@x.com".to_string(),
        time: CommitTime::new(1_000_000, 0),
    };
    let c2 = CommitMeta {
        name: "Canonical Name".to_string(),
        email: "new@x.com".to_string(),
        time: CommitTime::new(2_000_000, 0),
    };
    stats.append(&c1, Some(&mm), 3, 1);
    stats.append(&c2, Some(&mm), 4, 2);
    assert_eq!(stats.len(), 1);
    let (key, stat) = stats.author_at(0);
    assert_eq!(key, "Canonical Name <new@x.com>");
    assert_eq!(stat.num_commits, 2);
    assert_eq!(stat.insertions, 7);
    assert_eq!(stat.deletions, 3);
}

#[test]
fn author_setters_replace_fields() {
    let mut a = Author::new(Some("A".to_string()), None);
    assert_eq!(a.name.as_deref(), Some("A"));
    assert_eq!(a.email, None);
    a.set_name(Some("B".to_string()));
    a.set_email(Some("b@x.com".to_string()));
    assert_eq!(a.name.as_deref(), Some("B"));
    assert_eq!(a.email.as_deref(), Some("b@x.com"));
    a.set_name(None);
    assert_eq!(a.name, None);
    a.namemap_insert("alias".to_string(), Author::new(Some("C".to_string()), None));
    let d = Author::default();
    assert_eq!(d.name, None);
    assert_eq!(d.email, None);
}

#[test]
fn no_mailmap_aggregates_raw_identities() {
    let mut stats = PersonalStats::new();
    let c = CommitMeta {
        name: "Solo".to_string(),
        email: "solo@x.com".to_string(),
        time: CommitTime::new(5_000, 60),
    };
    stats.append(&c, None, 1, 0);
    let (key, stat) = stats.author_at(0);
    assert_eq!(key, "Solo <solo@x.com>");
    assert_eq!(stat.num_commits, 1);
}
