use gitostat::files::Files;
use gitostat::histogram::{bar_len, extension_of, ExtensionHistogram};
use gitostat::snapshot::Snapshot;
use gitostat::time::CommitTime;
use gitostat::tree::{Tree, TreeEntry};

fn blob(name: &str, binary: bool) -> TreeEntry {
    TreeEntry::Blob { name: Some(name.to_string()), binary }
}

fn sub(name: &str, entries: Vec<TreeEntry>) -> TreeEntry {
    TreeEntry::Sub { name: Some(name.to_string()), tree: Tree { entries } }
}

#[test]
fn snapshot_smoke() {
    // One file at a nested path: the snapshot holds exactly its full path.
    let tree = Tree { entries: vec![sub("foo", vec![blob("bar", false)])] };
    let snap = Snapshot::build(tree, CommitTime::new(1_000, 0), false);
    assert_eq!(snap.len(), 1);
    assert_eq!(snap.iter()[0], "foo/bar");
}

#[test]
fn snapshot_excludes_binary_blobs_when_asked() {
    let tree = Tree { entries: vec![sub("foo", vec![blob("bar", true)])] };
    let snap = Snapshot::build(tree, CommitTime::new(1_000, 0), true);
    assert_eq!(snap.len(), 0);
    let tree2 = Tree { entries: vec![sub("foo", vec![blob("bar", true)])] };
    let snap2 = Snapshot::build(tree2, CommitTime::new(1_000, 0), false);
    assert_eq!(snap2.len(), 1);
}

#[test]
fn snapshot_walks_depth_first_in_entry_order() {
    let tree = Tree {
        entries: vec![
            blob("README", false),
            sub("src", vec![blob("main.rs", false), sub("util", vec![blob("io.rs", false)])]),
            blob("zzz.txt", false),
        ],
    };
    let time = CommitTime::new(42, 30);
    let snap = Snapshot::build(tree, time, false);
    assert_eq!(snap.datetime(), time);
    let got: Vec<&str> = snap.iter().iter().map(|s| s.as_str()).collect();
    assert_eq!(got, vec!["README", "src/main.rs", "src/util/io.rs", "zzz.txt"]);
}

#[test]
fn snapshot_skips_unnamed_blobs_and_descends_unnamed_subtrees() {
    let tree = Tree {
        entries: vec![
            TreeEntry::Blob { name: None, binary: false },
            TreeEntry::Sub {
                name: None,
                tree: Tree { entries: vec![blob("inner", false)] },
            },
            TreeEntry::Other,
        ],
    };
    let snap = Snapshot::build(tree, CommitTime::new(0, 0), false);
    assert_eq!(snap.len(), 1);
    assert_eq!(snap.iter()[0], "<non-utf8 string>/inner");
}

#[test]
fn files_walk_matches_paths() {
    let tree = Tree {
        entries: vec![
            blob("a.rs", false),
            sub("dir", vec![blob("b.py", false)]),
        ],
    };
    let files = Files::new(&tree);
    assert_eq!(files.len(), 2);
    let got: Vec<&str> = files.iter().iter().map(|s| s.as_str()).collect();
    assert_eq!(got, vec!["a.rs", "dir/b.py"]);
}

#[test]
fn files_walk_skips_unnamed_entries_entirely() {
    let tree = Tree {
        entries: vec![
            TreeEntry::Sub { name: None, tree: Tree { entries: vec![blob("hidden", false)] } },
            blob("seen", false),
        ],
    };
    let files = Files::new(&tree);
    assert_eq!(files.len(), 1);
    assert_eq!(files.iter()[0], "seen");
}

#[test]
fn extension_buckets() {
    assert_eq!(extension_of("a.rs"), "rs");
    assert_eq!(extension_of("dir/sub/archive.tar.gz"), "gz");
    assert_eq!(extension_of("Makefile"), "none");
    assert_eq!(extension_of(".bashrc"), "none");
    assert_eq!(extension_of("dir.d/plain"), "none");
}

#[test]
fn histogram_counts_by_extension() {
    let tree = Tree {
        entries: vec![
            blob("a.rs", false),
            blob("b.rs", false),
            blob("Makefile", false),
            sub("src", vec![blob("c.rs", false), blob("d.py", false)]),
        ],
    };
    let snap = Snapshot::build(tree, CommitTime::new(0, 0), false);
    let hist = ExtensionHistogram::from_snapshot(&snap);
    assert_eq!(hist.get(&"rs".to_string()), 3);
    assert_eq!(hist.get(&"py".to_string()), 1);
    assert_eq!(hist.get(&"none".to_string()), 1);
    assert_eq!(hist.get(&"absent".to_string()), 0);
    // Iteration order is sorted by key: none < py < rs.
    assert_eq!(hist.len(), 3);
    assert_eq!(hist.item_at(0).0, "none");
    assert_eq!(hist.item_at(1).0, "py");
    assert_eq!(hist.item_at(2).0, "rs");
}

#[test]
fn rendering_folds_none_and_small_buckets_into_other() {
    let tree = Tree {
        entries: vec![
            blob("noext", false),
            blob("lonely.py", false),
            sub(
                "src",
                (0..98).map(|i| blob(&format!("f{}.rs", i), false)).collect(),
            ),
        ],
    };
    let snap = Snapshot::build(tree, CommitTime::new(0, 0), false);
    let total = snap.len() as u64;
    assert_eq!(total, 100);
    let hist = ExtensionHistogram::from_snapshot(&snap);
    // Width 60: the py bucket's share is 60/100 of a unit, below one,
    // so it folds into `other` together with the `none` bucket.
    let (kept, other) = hist.render_buckets(60, total);
    assert_eq!(kept.len(), 1);
    assert_eq!(kept[0].0, "rs");
    assert_eq!(kept[0].1, 98);
    assert_eq!(other, 2);
    // The kept bucket's bar: ceil(98 * 60 / 100) = 59 glyphs.
    assert_eq!(bar_len(kept[0].1, 60, total), 59);
}
