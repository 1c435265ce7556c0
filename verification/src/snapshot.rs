//! The snapshot walk: all files of one commit's tree, found with an
//! explicit worklist rather than recursion, so that arbitrarily deep
//! trees cannot exhaust the call stack.
//!
//! Subtrees whose name the backend could not decode are still descended
//! under a placeholder name; unnamed blobs are skipped. When binary
//! exclusion is on, blobs the backend reports as binary are dropped. The
//! snapshot also records the commit's author time.

use crate::files::path_views;
use crate::time::CommitTime;
use crate::tree::{join_path, spec_join, Tree, TreeEntry};
use vstd::prelude::*;

verus! {

/// The name a subtree is walked under: the backend's when it decodes,
/// a fixed placeholder otherwise.
pub open spec fn sub_name_view(name: Option<String>) -> Seq<char> {
    match name {
        Option::Some(n) => n@,
        Option::None => "<non-utf8 string>"@,
    }
}

/// The paths one entry contributes to the snapshot.
pub open spec fn snap_entry(prefix: Seq<char>, e: TreeEntry, no_binary: bool) -> Seq<Seq<char>>
    decreases e,
{
    match e {
        TreeEntry::Sub { name, tree } => snap_entries(
            spec_join(prefix, sub_name_view(name)),
            tree.entries@,
            no_binary,
        ),
        TreeEntry::Blob { name: Option::Some(n), binary } => if no_binary && binary {
            Seq::empty()
        } else {
            seq![spec_join(prefix, n@)]
        },
        _ => Seq::empty(),
    }
}

/// The paths a run of entries contributes, in entry order.
pub open spec fn snap_entries(prefix: Seq<char>, es: Seq<TreeEntry>, no_binary: bool) -> Seq<
    Seq<char>,
>
    decreases es,
{
    if es.len() == 0 {
        Seq::empty()
    } else {
        snap_entries(prefix, es.drop_last(), no_binary) + snap_entry(prefix, es.last(), no_binary)
    }
}

proof fn lemma_snap_entries_first(prefix: Seq<char>, es: Seq<TreeEntry>, no_binary: bool)
    requires
        es.len() > 0,
    ensures
        snap_entries(prefix, es, no_binary) == snap_entry(prefix, es.first(), no_binary)
            + snap_entries(prefix, es.drop_first(), no_binary),
    decreases es.len(),
{
    if es.len() == 1 {
        assert(es.drop_last() =~= Seq::<TreeEntry>::empty());
        assert(es.drop_first() =~= Seq::<TreeEntry>::empty());
        assert(es.first() == es.last());
        assert(snap_entries(prefix, es, no_binary) =~= snap_entry(prefix, es.first(), no_binary)
            + snap_entries(prefix, es.drop_first(), no_binary));
    } else {
        let d = es.drop_last();
        lemma_snap_entries_first(prefix, d, no_binary);
        assert(d.first() == es.first());
        assert(es.drop_first().drop_last() =~= d.drop_first());
        assert(es.drop_first().last() == es.last());
        assert(snap_entries(prefix, es, no_binary) =~= snap_entry(prefix, es.first(), no_binary)
            + snap_entries(prefix, es.drop_first(), no_binary));
    }
}

/// The weight of an entry: itself plus everything below it.
pub open spec fn entry_size(e: TreeEntry) -> nat
    decreases e,
{
    match e {
        TreeEntry::Sub { tree, .. } => 1 + entries_size(tree.entries@),
        _ => 1,
    }
}

/// The weight of a run of entries.
pub open spec fn entries_size(es: Seq<TreeEntry>) -> nat
    decreases es,
{
    if es.len() == 0 {
        0
    } else {
        entries_size(es.drop_last()) + entry_size(es.last())
    }
}

proof fn lemma_entries_size_first(es: Seq<TreeEntry>)
    requires
        es.len() > 0,
    ensures
        entries_size(es) == entry_size(es.first()) + entries_size(es.drop_first()),
    decreases es.len(),
{
    if es.len() == 1 {
        assert(es.drop_last() =~= Seq::<TreeEntry>::empty());
        assert(es.drop_first() =~= Seq::<TreeEntry>::empty());
        assert(es.first() == es.last());
    } else {
        let d = es.drop_last();
        lemma_entries_size_first(d);
        assert(d.first() == es.first());
        assert(es.drop_first().drop_last() =~= d.drop_first());
        assert(es.drop_first().last() == es.last());
    }
}

/// What the worklist still owes, top of the stack first.
pub open spec fn stack_rest(st: Seq<(String, TreeEntry)>, no_binary: bool) -> Seq<Seq<char>>
    decreases st.len(),
{
    if st.len() == 0 {
        Seq::empty()
    } else {
        snap_entry(st.last().0@, st.last().1, no_binary) + stack_rest(st.drop_last(), no_binary)
    }
}

/// The weight of the worklist.
pub open spec fn stack_size(st: Seq<(String, TreeEntry)>) -> nat
    decreases st.len(),
{
    if st.len() == 0 {
        0
    } else {
        stack_size(st.drop_last()) + entry_size(st.last().1)
    }
}

/// Push a run of entries, last first, so the first is walked next.
fn push_entries(
    stack: &mut Vec<(String, TreeEntry)>,
    prefix: &String,
    entries: Vec<TreeEntry>,
    no_binary: bool,
)
    ensures
        stack_rest(final(stack)@, no_binary) == snap_entries(prefix@, entries@, no_binary)
            + stack_rest(old(stack)@, no_binary),
        stack_size(final(stack)@) == entries_size(entries@) + stack_size(old(stack)@),
{
    let mut es = entries;
    let ghost orig = es@;
    proof {
        assert(orig.skip(orig.len() as int) =~= Seq::<TreeEntry>::empty());
        assert(es@ =~= orig.take(es@.len() as int));
    }
    while es.len() != 0
        invariant
            es@.len() <= orig.len(),
            es@ == orig.take(es@.len() as int),
            stack_rest(stack@, no_binary) == snap_entries(
                prefix@,
                orig.skip(es@.len() as int),
                no_binary,
            ) + stack_rest(old(stack)@, no_binary),
            stack_size(stack@) == entries_size(orig.skip(es@.len() as int)) + stack_size(
                old(stack)@,
            ),
        decreases es@.len(),
    {
        let ghost k = es@.len() as int;
        let e = match es.pop() {
            Option::Some(e) => e,
            Option::None => {
                proof {
                    assert(false);
                }
                TreeEntry::Other
            },
        };
        proof {
            assert(e == orig[k - 1]);
            assert(es@ =~= orig.take(k - 1));
            lemma_snap_entries_first(prefix@, orig.skip(k - 1), no_binary);
            lemma_entries_size_first(orig.skip(k - 1));
            assert(orig.skip(k - 1).first() == orig[k - 1]);
            assert(orig.skip(k - 1).drop_first() =~= orig.skip(k));
        }
        let p = prefix.clone();
        proof {
            let st0 = stack@;
            assert(st0.push((p, e)).drop_last() =~= st0);
            assert(st0.push((p, e)).last() == (p, e));
        }
        stack.push((p, e));
        proof {
            assert(stack_rest(stack@, no_binary) =~= snap_entries(
                prefix@,
                orig.skip(es@.len() as int),
                no_binary,
            ) + stack_rest(old(stack)@, no_binary));
        }
    }
    proof {
        assert(orig.skip(0) =~= orig);
        assert(entries@ == orig);
    }
}

/// The files of one commit's tree, with the commit's author time.
pub struct Snapshot {
    files: Vec<String>,
    datetime: CommitTime,
}

impl View for Snapshot {
    type V = Seq<Seq<char>>;

    open spec fn view(&self) -> Seq<Seq<char>> {
        path_views(self.paths())
    }
}

impl Snapshot {
    /// The collected paths, in walk order.
    pub closed spec fn paths(&self) -> Seq<String> {
        self.files@
    }

    /// The commit's author time.
    pub closed spec fn spec_datetime(&self) -> CommitTime {
        self.datetime
    }

    /// The commit's author time.
    pub fn datetime(&self) -> (t: CommitTime)
        ensures
            t == self.spec_datetime(),
    {
        self.datetime
    }

    /// Walk a commit's root tree with an explicit worklist. With
    /// `no_binary` set, blobs the backend reported binary are dropped.
    pub fn build(head: Tree, datetime: CommitTime, no_binary: bool) -> (s: Snapshot)
        ensures
            s@ == snap_entries(Seq::<char>::empty(), head.entries@, no_binary),
            s.spec_datetime() == datetime,
            s.paths().len() == s@.len(),
    {
        let ghost orig = head.entries@;
        let ghost total = snap_entries(Seq::<char>::empty(), orig, no_binary);
        let mut files: Vec<String> = Vec::new();
        let mut stack: Vec<(String, TreeEntry)> = Vec::new();
        let root = String::new();
        push_entries(&mut stack, &root, head.entries, no_binary);
        proof {
            assert(path_views(files@) + stack_rest(stack@, no_binary) =~= total);
        }
        while stack.len() != 0
            invariant
                path_views(files@) + stack_rest(stack@, no_binary) == total,
            decreases stack_size(stack@),
        {
            let ghost st0 = stack@;
            let (prefix, entry) = match stack.pop() {
                Option::Some(pe) => pe,
                Option::None => {
                    proof {
                        assert(false);
                    }
                    (String::new(), TreeEntry::Other)
                },
            };
            proof {
                assert((prefix, entry) == st0.last());
                assert(stack@ =~= st0.drop_last());
            }
            match entry {
                TreeEntry::Sub { name, tree } => {
                    let n: String = match name {
                        Option::Some(nm) => nm,
                        Option::None => String::from_str("<non-utf8 string>"),
                    };
                    proof {
                        assert(n@ == sub_name_view(name));
                    }
                    let new_prefix = join_path(prefix.as_str(), n.as_str());
                    push_entries(&mut stack, &new_prefix, tree.entries, no_binary);
                    proof {
                        assert(path_views(files@) + stack_rest(stack@, no_binary) =~= total);
                    }
                },
                TreeEntry::Blob { name: Option::Some(nm), binary } => {
                    if !(no_binary && binary) {
                        let path = join_path(prefix.as_str(), nm.as_str());
                        proof {
                            assert(path_views(files@.push(path)) =~= path_views(files@).push(
                                path@,
                            ));
                            assert(path_views(files@).push(path@) + stack_rest(
                                stack@,
                                no_binary,
                            ) =~= total);
                        }
                        files.push(path);
                    } else {
                        proof {
                            assert(snap_entry(prefix@, entry, no_binary) =~= Seq::<
                                Seq<char>,
                            >::empty());
                            assert(path_views(files@) + stack_rest(stack@, no_binary) =~= total);
                        }
                    }
                },
                _ => {
                    proof {
                        assert(snap_entry(prefix@, entry, no_binary) =~= Seq::<
                            Seq<char>,
                        >::empty());
                        assert(path_views(files@) + stack_rest(stack@, no_binary) =~= total);
                    }
                },
            }
        }
        proof {
            assert(path_views(files@) =~= total);
        }
        Snapshot { files, datetime }
    }

    /// How many files the walk found.
    pub fn len(&self) -> (n: usize)
        ensures
            n == self@.len(),
    {
        self.files.len()
    }

    /// The collected paths, in walk order.
    pub fn iter(&self) -> (r: &Vec<String>)
        ensures
            r@ == self.paths(),
    {
        &self.files
    }
}

} // verus!
