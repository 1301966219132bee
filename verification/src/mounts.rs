//! Where the walks of the file system begin.

use vstd::prelude::*;

use crate::dedup::views;
use crate::filepath::FilePath;

verus! {

/// The roots to walk: the home directory alone, given `HOME`. Network file systems are left
/// out on purpose.
pub fn walk_roots(home: Option<FilePath>) -> (r: Vec<FilePath>)
    ensures
        views(r@) == (match home {
            Some(home) => seq![home@],
            None => Seq::empty(),
        }),
{
    let mut roots: Vec<FilePath> = Vec::new();
    match home {
        Some(home) => {
            roots.push(home);
            assert(views(roots@) =~= seq![home@]);
        },
        None => {
            assert(views(roots@) =~= Seq::empty());
        },
    }
    roots
}

} // verus!
