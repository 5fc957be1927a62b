//! Project (PIDB) naming.
use vstd::prelude::*;

use crate::text::owned;

verus! {

/// Whether `part` occurs in `whole` as a run of consecutive characters.
pub open spec fn is_substring(part: Seq<char>, whole: Seq<char>) -> bool {
    exists|start: int| 0 <= start && start + part.len() <= whole.len() && #[trigger] whole.subrange(start, start + part.len()) == part
}

/// `p` with its trailing `/` and `/.` parts removed.
pub open spec fn without_trailing_separators(p: Seq<char>) -> Seq<char>
    decreases p.len(),
{
    if p.len() > 0 && p.last() == '/' {
        without_trailing_separators(p.drop_last())
    } else if p.len() >= 2 && p.last() == '.' && p[p.len() - 2] == '/' {
        without_trailing_separators(p.subrange(0, p.len() - 2))
    } else {
        p
    }
}

/// What follows the last `/` of `p`; all of `p` when it holds none.
pub open spec fn after_last_slash(p: Seq<char>) -> Seq<char>
    decreases p.len(),
{
    if p.len() == 0 {
        p
    } else if p.last() == '/' {
        Seq::empty()
    } else {
        after_last_slash(p.drop_last()).push(p.last())
    }
}

/// A path whose components every platform reads alike: `/` is its only
/// separator and it has no platform prefix, that is no `\`, no `:`, and it
/// does not begin with two `/` (which Windows reads as a network share).
pub open spec fn is_portable_path(p: Seq<char>) -> bool {
    &&& !p.contains('\\')
    &&& !p.contains(':')
    &&& !(p.len() >= 2 && p[0] == '/' && p[1] == '/')
}

/// The file name of a portable path: once trailing `/` and `/.` parts are
/// dropped, what follows the last `/`, unless that is empty, `.` or `..`
/// (the path is a root, a current directory, or ends in a parent step).
pub open spec fn portable_file_name(p: Seq<char>) -> Option<Seq<char>> {
    let last = after_last_slash(without_trailing_separators(p));
    if last.len() > 0 && last != "."@ && last != ".."@ {
        Some(last)
    } else {
        None
    }
}

/// The last component of `path` as `std::path::Path::file_name` finds it,
/// as text (`OsStr::to_str` of a piece of a `str` is always that piece).
///
/// `Path::file_name` returns the final normal component, and nothing when
/// the path ends in `..` or has no such component; `.` components and
/// repeated separators are skipped. `/` separates components on every
/// platform, so on a portable path the result is stated exactly. Elsewhere
/// (a `\` separator or a drive or share prefix, read only on Windows) the
/// contract states what holds on every platform: a name found is a
/// non-empty piece of the path.
#[verifier::external_body]
fn path_file_name(path: &str) -> (found: Option<String>)
    ensures
        found.is_some() ==> found.unwrap()@.len() > 0 && is_substring(found.unwrap()@, path@),
        is_portable_path(path@) ==> match found {
            Some(name) => portable_file_name(path@) == Some(name@),
            None => portable_file_name(path@) is None,
        },
{
    std::path::Path::new(path).file_name().and_then(|name| name.to_str()).map(|name| name.to_string())
}

/// `name` when present, otherwise `fallback`.
pub fn name_or_fallback(name: Option<String>, fallback: &str) -> (r: String)
    ensures
        r@ == (match name {
            Some(n) => n@,
            None => fallback@,
        }),
{
    match name {
        Some(n) => n,
        None => owned(fallback),
    }
}

/// The display name of a project stored at `path`: its file name, or
/// `fallback` when there is no path or no usable file name.
pub fn project_name(path: Option<&str>, fallback: &str) -> (r: String)
    ensures
        path.is_none() ==> r@ == fallback@,
        path matches Some(p) ==> (r@ == fallback@ || (r@.len() > 0 && is_substring(r@, p@))),
        path matches Some(p) ==> (is_portable_path(p@) ==> r@ == match portable_file_name(p@) {
            Some(name) => name,
            None => fallback@,
        }),
{
    let name = match path {
        Some(p) => path_file_name(p),
        None => None,
    };
    name_or_fallback(name, fallback)
}

} // verus!
