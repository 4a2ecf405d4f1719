//! Write file lookup: find, from directory listings, the directory whose
//! `.gitignore` file should be opened for writing.
//!
//! The search rule matches `write_path`: the caller hands over the entry
//! names of the starting directory and of each ancestor in turn, and the
//! nearest qualifying directory is chosen.

use vstd::prelude::*;

verus! {

use crate::write_path::{has_git_entry, search_dir_for_gitignore_path};

/// Find the directory whose `.gitignore` file is the write target, if
/// any qualifies: the starting directory itself when any directory may
/// hold the target, else the nearest git repository root.
pub fn find_gitignore_path(dir_listings: &Vec<Vec<String>>, only_git_root: bool) -> (r: Option<
    usize,
>)
    ensures
        !only_git_root ==> r == (if dir_listings@.len() > 0 {
            Some(0usize)
        } else {
            None::<usize>
        }),
        only_git_root ==> match r {
            Some(i) => {
                &&& i < dir_listings@.len()
                &&& has_git_entry(dir_listings.deep_view()[i as int])
                &&& forall|j: int|
                    0 <= j < i ==> !has_git_entry(#[trigger] dir_listings.deep_view()[j])
            },
            None => forall|j: int|
                0 <= j < dir_listings@.len() ==> !has_git_entry(
                    #[trigger] dir_listings.deep_view()[j],
                ),
        },
{
    let mut i: usize = 0;
    while i < dir_listings.len()
        invariant
            0 <= i <= dir_listings@.len(),
            only_git_root || i == 0,
            forall|j: int| 0 <= j < i ==> !has_git_entry(#[trigger] dir_listings.deep_view()[j]),
        decreases dir_listings@.len() - i,
    {
        let found = search_dir_for_gitignore_path(&dir_listings[i], only_git_root);
        proof {
            assert(dir_listings.deep_view()[i as int] =~= dir_listings@[i as int].deep_view());
        }
        if found {
            return Some(i);
        }
        i = i + 1;
    }
    None
}

} // verus!
