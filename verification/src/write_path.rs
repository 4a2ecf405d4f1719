//! Write path lookup: decide, from directory listings, which directory's
//! `.gitignore` file should be written to.
//!
//! The caller walks from a starting directory up through its ancestors
//! and hands over the entry names of each directory, nearest first. When
//! the target need not be a git repository root, the starting directory
//! itself is chosen; otherwise the nearest directory holding a `.git`
//! entry is chosen, and none qualifies when no ancestor holds one.

use vstd::prelude::*;

verus! {

use crate::markers::str_eq;

/// The listing holds an entry named `.git`: the directory is a git
/// repository root.
pub open spec fn has_git_entry(entries: Seq<Seq<char>>) -> bool {
    exists|i: int| 0 <= i < entries.len() && entries[i] == ".git"@
}

/// Whether the directory with these entry names is where the
/// `.gitignore` file belongs: any directory qualifies unless only a git
/// repository root may, in which case a `.git` entry must be present.
pub fn search_dir_for_gitignore_path(entries: &Vec<String>, only_git_root: bool) -> (r: bool)
    ensures
        r == (!only_git_root || has_git_entry(entries.deep_view())),
{
    if !only_git_root {
        return true;
    }
    let mut i: usize = 0;
    while i < entries.len()
        invariant
            0 <= i <= entries@.len(),
            forall|j: int| 0 <= j < i ==> (#[trigger] entries@[j])@ != ".git"@,
        decreases entries@.len() - i,
    {
        if str_eq(entries[i].as_str(), ".git") {
            proof {
                assert(entries.deep_view()[i as int] == entries@[i as int]@);
            }
            return true;
        }
        i = i + 1;
    }
    proof {
        assert forall|j: int| 0 <= j < entries.deep_view().len() implies entries.deep_view()[j]
            != ".git"@ by {
            assert(entries.deep_view()[j] == entries@[j]@);
        }
    }
    false
}

/// Pick the directory whose `.gitignore` file is the write target.
///
/// `dir_listings` holds the entry names of the starting directory and of
/// each ancestor in turn, up to the filesystem root. The result is the
/// position of the chosen directory: the starting directory itself when
/// any directory may hold the target, else the nearest git repository
/// root; `None` when none qualifies.
pub fn lookup(dir_listings: &Vec<Vec<String>>, only_git_root: bool) -> (r: Option<usize>)
    ensures
        !only_git_root ==> r == (if dir_listings@.len() > 0 {
            Some(0usize)
        } else {
            None::<usize>
        }),
        only_git_root ==> match r {
            Some(i) => {
                &&& i < dir_listings@.len()
                &&& has_git_entry(dir_listings.deep_view()[i as int])
                &&& forall|j: int|
                    0 <= j < i ==> !has_git_entry(#[trigger] dir_listings.deep_view()[j])
            },
            None => forall|j: int|
                0 <= j < dir_listings@.len() ==> !has_git_entry(
                    #[trigger] dir_listings.deep_view()[j],
                ),
        },
{
    let mut i: usize = 0;
    while i < dir_listings.len()
        invariant
            0 <= i <= dir_listings@.len(),
            only_git_root || i == 0,
            forall|j: int| 0 <= j < i ==> !has_git_entry(#[trigger] dir_listings.deep_view()[j]),
        decreases dir_listings@.len() - i,
    {
        let found = search_dir_for_gitignore_path(&dir_listings[i], only_git_root);
        proof {
            assert(dir_listings.deep_view()[i as int] =~= dir_listings@[i as int].deep_view());
        }
        if found {
            return Some(i);
        }
        i = i + 1;
    }
    None
}

} // verus!
