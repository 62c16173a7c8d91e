//! Expansion of `~` in configured paths.

use crate::error::{DotfilesError, ErrorView};
use crate::paths::{first_char_is, join, join_spec, starts_with_char};
use vstd::prelude::*;

verus! {

/// `path` with a leading `~` resolved against `home`: `~` alone becomes `home`,
/// `~/rest` becomes `home` joined with `rest`; every other path is kept as it is
/// (`~user` forms included).
pub open spec fn expand_tilde_spec(path: Seq<char>, home: Seq<char>) -> Seq<char> {
    if !starts_with_char(path, '~') {
        path
    } else if path.len() == 1 {
        home
    } else if path[1] == '/' {
        join_spec(home, path.skip(2))
    } else {
        path
    }
}

/// Expansion needs a home directory exactly when the path starts with `~`.
pub open spec fn needs_home(path: Seq<char>) -> bool {
    starts_with_char(path, '~')
}

/// The home directory of the user, from `directories::BaseDirs::new()` and
/// `BaseDirs::home_dir`. What comes back depends on the system, and the
/// contract claims nothing of it. On Unix other than Redox the crate takes
/// `$HOME` when it is set and non-empty, else (but on Android, iOS and
/// Emscripten) the home of the user's password database entry (`getpwuid_r`)
/// when that is non-empty; on Redox it takes the home of the user's entry as it is, an
/// empty one too; on Windows it needs the Profile, RoamingAppData and
/// LocalAppData known folders and gives `None` when one of them is unknown.
/// A home whose path is not valid Unicode cannot be held as a `String` and
/// comes back as `None`.
///
/// `UserDirs::new()` is not called: on Linux it also reads `user-dirs.dirs`
/// and slices its lines, which panics on a line whose key is `XDG_DIR` or whose
/// value is a lone `"`, and a function of this library does not panic.
#[verifier::external_body]
pub(crate) fn home_dir() -> (res: Option<String>) {
    match directories::BaseDirs::new() {
        Some(dirs) => match dirs.home_dir().to_str() {
            Some(h) => Some(h.to_owned()),
            None => None,
        },
        None => None,
    }
}

/// Expands a leading `~` of `path` against a known (or missing) home directory.
pub fn expand_tilde_with_home(path: &str, home: Option<&str>) -> (res: Result<String, DotfilesError>)
    ensures
        needs_home(path@) && home is None <==> res is Err,
        res matches Err(e) ==> e@ == ErrorView::NoHomeDirectory,
        !needs_home(path@) ==> (res matches Ok(r) && r@ == path@),
        home matches Some(h) ==> (res matches Ok(r) && r@ == expand_tilde_spec(path@, h@)),
{
    if !first_char_is(path, '~') {
        return Ok(path.to_owned());
    }
    let home = match home {
        Some(h) => h,
        None => return Err(DotfilesError::NoHomeDirectory),
    };
    let n = path.unicode_len();
    if n == 1 {
        return Ok(home.to_owned());
    }
    if path.get_char(1) == '/' {
        let rest = path.substring_char(2, n);
        return Ok(join(home, rest));
    }
    Ok(path.to_owned())
}

/// Expands a leading `~` of `path` with the home directory that the system
/// gives at the time of the call. A path without `~` comes back unchanged; one
/// with it fails only when no home directory is known.
pub fn expand_tilde(path: &str) -> (res: Result<String, DotfilesError>)
    ensures
        !needs_home(path@) ==> (res matches Ok(r) && r@ == path@),
        res matches Err(e) ==> needs_home(path@) && e@ == ErrorView::NoHomeDirectory,
        res matches Ok(r) ==> exists|h: Seq<char>| r@ == expand_tilde_spec(path@, h),
{
    if !first_char_is(path, '~') {
        proof {
            let any_home = seq!['/'];
            assert(path@ == expand_tilde_spec(path@, any_home));
        }
        return Ok(path.to_owned());
    }
    let home = home_dir();
    match &home {
        Some(h) => {
            let r = expand_tilde_with_home(path, Some(h.as_str()));
            proof {
                if let Ok(out) = &r {
                    assert(out@ == expand_tilde_spec(path@, h@));
                }
            }
            r
        },
        None => Err(DotfilesError::NoHomeDirectory),
    }
}

} // verus!
