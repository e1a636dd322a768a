//! Where the sum file goes by default: the root of the git repository that
//! holds the working directory, found by walking up the directory tree but
//! never above the home directory.
use vstd::prelude::*;

verus! {

/// The search may look at the directory `i` levels above the working
/// directory: it stops at the home directory, when that lies on the way.
pub open spec fn searched(i: int, home: Option<usize>) -> bool {
    match home {
        Some(h) => i <= h,
        None => true,
    }
}

/// Picks the repository root among the working directory and its ancestors.
/// `has_git[i]` says whether the directory `i` levels up (0 is the working
/// directory itself) holds a `.git` entry, and `home` is the level of the
/// home directory when it is one of them.  The result is the nearest level
/// that holds `.git` and that the search reaches, or none.
pub fn git_root_level(has_git: &[bool], home: Option<usize>) -> (r: Option<usize>)
    ensures
        match r {
            Some(i) => {
                &&& i < has_git@.len()
                &&& has_git@[i as int]
                &&& searched(i as int, home)
                &&& forall|j: int| 0 <= j < i ==> !#[trigger] has_git@[j]
            },
            None => forall|j: int| 0 <= j < has_git@.len() && searched(j, home) ==> !#[trigger] has_git@[j],
        },
{
    let mut i: usize = 0;
    while i < has_git.len()
        invariant
            i <= has_git.len(),
            forall|j: int| 0 <= j < i ==> !#[trigger] has_git@[j],
            forall|j: int| 0 <= j < i ==> searched(j, home),
        decreases has_git.len() - i,
    {
        let reached = match home {
            Some(h) => i <= h,
            None => true,
        };
        if !reached {
            return None;
        }
        if has_git[i] {
            return Some(i);
        }
        i = i + 1;
    }
    None
}

} // verus!
