//! The recursive file walk: every named regular file reachable from a
//! tree, depth-first in entry order, each under its full path.
//!
//! Entries whose name the backend could not decode are skipped, subtree
//! and blob alike; nothing is filtered by content.

use crate::tree::{join_path, spec_join, Tree, TreeEntry};
use vstd::prelude::*;

verus! {

/// The views of a sequence of owned paths.
pub open spec fn path_views(s: Seq<String>) -> Seq<Seq<char>> {
    s.map_values(|x: String| x@)
}

/// The paths one entry contributes to the walk.
pub open spec fn files_of_entry(prefix: Seq<char>, e: TreeEntry) -> Seq<Seq<char>>
    decreases e,
{
    match e {
        TreeEntry::Sub { name: Option::Some(n), tree } => files_of_entries(
            spec_join(prefix, n@),
            tree.entries@,
        ),
        TreeEntry::Blob { name: Option::Some(n), .. } => seq![spec_join(prefix, n@)],
        _ => Seq::empty(),
    }
}

/// The paths a run of entries contributes, in entry order.
pub open spec fn files_of_entries(prefix: Seq<char>, es: Seq<TreeEntry>) -> Seq<Seq<char>>
    decreases es,
{
    if es.len() == 0 {
        Seq::empty()
    } else {
        files_of_entries(prefix, es.drop_last()) + files_of_entry(prefix, es.last())
    }
}

/// The files of one commit's tree, as full paths from the root.
pub struct Files {
    files: Vec<String>,
}

impl View for Files {
    type V = Seq<Seq<char>>;

    open spec fn view(&self) -> Seq<Seq<char>> {
        path_views(self.paths())
    }
}

impl Files {
    /// The collected paths, in walk order.
    pub closed spec fn paths(&self) -> Seq<String> {
        self.files@
    }

    /// Walk a whole tree from the root.
    pub fn new(head: &Tree) -> (r: Files)
        ensures
            r@ == files_of_entries(Seq::<char>::empty(), head.entries@),
    {
        let root = String::new();
        Files::create(head, &root)
    }

    /// Walk the subtree reached under `prefix`.
    fn create(head: &Tree, prefix: &String) -> (r: Files)
        ensures
            r@ == files_of_entries(prefix@, head.entries@),
        decreases *head,
    {
        let mut out: Vec<String> = Vec::new();
        let n = head.entries.len();
        let mut i: usize = 0;
        proof {
            assert(head.entries@.take(0) =~= Seq::<TreeEntry>::empty());
            assert(path_views(out@) =~= files_of_entries(prefix@, head.entries@.take(0)));
        }
        while i < n
            invariant
                n == head.entries@.len(),
                i <= n,
                path_views(out@) == files_of_entries(prefix@, head.entries@.take(i as int)),
            decreases n - i,
        {
            proof {
                assert(head.entries@.take(i as int + 1).drop_last() =~= head.entries@.take(
                    i as int,
                ));
                assert(head.entries@.take(i as int + 1).last() == head.entries@[i as int]);
            }
            match &head.entries[i] {
                TreeEntry::Sub { name: Option::Some(name), tree } => {
                    let sub_prefix = join_path(prefix.as_str(), name.as_str());
                    let mut subfolder = Files::create(tree, &sub_prefix);
                    proof {
                        let es = head.entries@;
                        assert(files_of_entry(prefix@, es[i as int]) == files_of_entries(
                            spec_join(prefix@, name@),
                            tree.entries@,
                        ));
                        assert(files_of_entries(prefix@, es.take(i as int + 1)) == files_of_entries(
                            prefix@,
                            es.take(i as int),
                        ) + files_of_entry(prefix@, es[i as int]));
                        assert(path_views(out@) + path_views(subfolder.files@) =~= path_views(
                            out@ + subfolder.files@,
                        ));
                        assert(path_views(out@ + subfolder.files@) =~= files_of_entries(
                            prefix@,
                            es.take(i as int + 1),
                        ));
                    }
                    out.append(&mut subfolder.files);
                    proof {
                        assert(path_views(out@) =~= files_of_entries(
                            prefix@,
                            head.entries@.take(i as int + 1),
                        ));
                    }
                },
                TreeEntry::Blob { name: Option::Some(name), binary: _ } => {
                    let path = join_path(prefix.as_str(), name.as_str());
                    proof {
                        let es = head.entries@;
                        assert(files_of_entry(prefix@, es[i as int]) =~= seq![
                            spec_join(prefix@, name@),
                        ]);
                        assert(files_of_entries(prefix@, es.take(i as int + 1)) == files_of_entries(
                            prefix@,
                            es.take(i as int),
                        ) + files_of_entry(prefix@, es[i as int]));
                        assert(path_views(out@.push(path)) =~= path_views(out@).push(path@));
                        assert(path_views(out@).push(path@) =~= files_of_entries(
                            prefix@,
                            es.take(i as int),
                        ) + seq![spec_join(prefix@, name@)]);
                    }
                    out.push(path);
                    proof {
                        assert(path_views(out@) =~= files_of_entries(
                            prefix@,
                            head.entries@.take(i as int + 1),
                        ));
                    }
                },
                _ => {
                    proof {
                        let es = head.entries@;
                        assert(files_of_entry(prefix@, es[i as int]) =~= Seq::<Seq<char>>::empty());
                        assert(files_of_entries(prefix@, es.take(i as int + 1)) == files_of_entries(
                            prefix@,
                            es.take(i as int),
                        ) + files_of_entry(prefix@, es[i as int]));
                        assert(path_views(out@) =~= files_of_entries(
                            prefix@,
                            es.take(i as int + 1),
                        ));
                    }
                },
            }
            i += 1;
        }
        proof {
            assert(head.entries@.take(n as int) =~= head.entries@);
        }
        Files { files: out }
    }

    /// How many files the walk found.
    pub fn len(&self) -> (n: usize)
        ensures
            n == self@.len(),
    {
        self.files.len()
    }

    /// The collected paths, in walk order.
    pub fn iter(&self) -> (r: &Vec<String>)
        ensures
            r@ == self.paths(),
    {
        &self.files
    }
}

} // verus!
