//! Filesystem paths, held as strings, composed the way `std::path` does.
use vstd::prelude::*;

use crate::text::opt_view;

verus! {

/// What `Path::join` makes of `base` and `segment` on Unix: an absolute
/// segment replaces the base; otherwise the segment is appended, after a
/// `/` unless the base is empty or already ends in `/`.
pub open spec fn path_join(base: Seq<char>, segment: Seq<char>) -> Seq<char> {
    if segment.len() > 0 && segment[0] == '/' {
        segment
    } else if base.len() > 0 && base.last() != '/' {
        base + seq!['/'] + segment
    } else {
        base + segment
    }
}

/// What `path_join` puts between a base and a relative segment.
pub open spec fn separator_after(base: Seq<char>) -> Seq<char> {
    if base.len() == 0 || base.last() == '/' {
        Seq::empty()
    } else {
        seq!['/']
    }
}

/// Joins a path segment onto a path, as `Path::join` does on Unix.
pub fn join_path(base: &str, segment: &str) -> (res: String)
    ensures
        res@ == path_join(base@, segment@),
{
    let n = base.unicode_len();
    let m = segment.unicode_len();
    if m > 0 && segment.get_char(0) == '/' {
        return String::from_str(segment);
    }
    let mut res = String::from_str(base);
    if n > 0 && base.get_char(n - 1) != '/' {
        crate::text::push_char(&mut res, '/');
    }
    res.append(segment);
    res
}

/// What `Path::file_name` gives for `path`.
pub uninterp spec fn path_file_name(path: Seq<char>) -> Option<Seq<char>>;

/// Calls `std::path::Path::file_name`. The contract only names the outcome
/// (`path_file_name`); how `std::path` splits components is not restated.
#[verifier::external_body]
pub(crate) fn file_name_of(path: &str) -> (res: Option<String>)
    ensures
        opt_view(res) == path_file_name(path@),
{
    std::path::Path::new(path).file_name().map(|n| n.to_string_lossy().into_owned())
}

/// What `Path::with_file_name` makes of `path` and `name`.
pub uninterp spec fn path_with_file_name(path: Seq<char>, name: Seq<char>) -> Seq<char>;

/// Calls `std::path::Path::with_file_name`. The contract only names the
/// outcome (`path_with_file_name`).
#[verifier::external_body]
pub(crate) fn with_file_name(path: &str, name: &str) -> (res: String)
    ensures
        res@ == path_with_file_name(path@, name@),
{
    std::path::Path::new(path).with_file_name(name).to_string_lossy().into_owned()
}

} // verus!
