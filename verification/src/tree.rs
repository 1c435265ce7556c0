//! The file-tree model: what the walks read of one commit's tree.
//!
//! The backend enumerates tree entries as (name, kind) pairs with a handle
//! to dereference subtrees and blobs; callers materialize that shape into
//! [`Tree`] values, on which the walks are verified. A name is absent when
//! the backend cannot decode it; a blob carries the backend's verdict on
//! whether its content is binary.

use vstd::prelude::*;

verus! {

/// One entry of a tree object: a subtree, a blob (a regular file), or
/// something else (a submodule and the like), in the backend's order.
pub enum TreeEntry {
    Sub { name: Option<String>, tree: Tree },
    Blob { name: Option<String>, binary: bool },
    Other,
}

/// A tree object: its entries in the backend's order.
pub struct Tree {
    pub entries: Vec<TreeEntry>,
}

/// `prefix/name`, posix-style; a file at the root keeps its bare name.
pub open spec fn spec_join(prefix: Seq<char>, name: Seq<char>) -> Seq<char> {
    if prefix.len() == 0 {
        name
    } else {
        prefix + "/"@ + name
    }
}

/// `prefix/name`, posix-style (see [`spec_join`]).
pub fn join_path(prefix: &str, name: &str) -> (r: String)
    ensures
        r@ == spec_join(prefix@, name@),
{
    if prefix.is_empty() {
        String::from_str(name)
    } else {
        let r = String::from_str(prefix).concat("/").concat(name);
        proof {
            assert(r@ =~= spec_join(prefix@, name@));
        }
        r
    }
}

} // verus!
