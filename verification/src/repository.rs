//! Which directory is the dotfiles repository.

use crate::error::{DotfilesError, ErrorView};
use crate::util::{expand_tilde, expand_tilde_spec, needs_home};
use vstd::prelude::*;

verus! {

/// The repository path as given: the argument, or `.` when there is none.
pub open spec fn repo_input(repo: Option<String>) -> Seq<char> {
    match repo {
        Some(r) => r@,
        None => "."@,
    }
}

/// The path of the repository, before checking that it is a directory: the
/// given path, or `.` when none is given, with its `~` expanded.
pub fn repo_path(repo: Option<String>) -> (res: Result<String, DotfilesError>)
    ensures
        !needs_home(repo_input(repo)) ==> (res matches Ok(r) && r@ == repo_input(repo)),
        res matches Err(e) ==> needs_home(repo_input(repo)) && e@ == ErrorView::NoHomeDirectory,
        res matches Ok(r) ==> exists|h: Seq<char>| r@ == expand_tilde_spec(repo_input(repo), h),
{
    let path = match repo {
        Some(r) => r,
        None => ".".to_owned(),
    };
    assert(path@ == repo_input(repo));
    expand_tilde(path.as_str())
}

} // verus!
