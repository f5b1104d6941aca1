//! The Humble Bundle session cookie: its name, the errors around it, and
//! the order in which Firefox profiles are searched for it.
use vstd::prelude::*;

use crate::cache::str_opt_view;
use crate::text::{chars_of, opt_view, string_of, trim, trim_bounds};

verus! {

/// The name of the Humble Bundle session cookie.
pub const COOKIE_NAME: &'static str = "_simpleauth_sess";

/// The message for a search that found no session.
pub const SESSION_NOT_FOUND_MSG: &'static str =
    "No Humble Bundle session found in Firefox. Log into humblebundle.com in Firefox and re-run, or pass --cookie.";

/// The message for `--cookie-stdin` with nothing on standard input.
pub const EMPTY_STDIN_MSG: &'static str =
    "No session cookie on standard input (--cookie-stdin).";

/// A session cookie that could not be found or was refused.
#[derive(Debug)]
pub struct AuthError(pub String);

/// Where the session cookie comes from, in order of precedence: the text
/// read for `--cookie-stdin` (trimmed, and required to be non-empty), then
/// `--cookie`, then a non-empty `$HBSYNC_COOKIE`; `Ok(None)` means the
/// Firefox profile is to be searched.
pub open spec fn spec_cookie_from_sources(
    stdin_text: Option<Seq<char>>,
    flag: Option<Seq<char>>,
    env: Option<Seq<char>>,
) -> Result<Option<Seq<char>>, Seq<char>> {
    match stdin_text {
        Some(t) => if trim(t).len() > 0 {
            Ok(Some(trim(t)))
        } else {
            Err(EMPTY_STDIN_MSG@)
        },
        None => match flag {
            Some(v) => Ok(Some(v)),
            None => match env {
                Some(v) => if v.len() > 0 {
                    Ok(Some(v))
                } else {
                    Ok(None)
                },
                None => Ok(None),
            },
        },
    }
}

/// Picks the session cookie from the explicit sources, by precedence.
pub fn cookie_from_sources(stdin_text: Option<&str>, flag: Option<&str>, env: Option<&str>) -> (res:
    Result<Option<String>, AuthError>)
    ensures
        match (res, spec_cookie_from_sources(
            str_opt_view(stdin_text),
            str_opt_view(flag),
            str_opt_view(env),
        )) {
            (Ok(c), Ok(d)) => opt_view(c) == d,
            (Err(e), Err(m)) => e.0@ == m,
            _ => false,
        },
{
    match stdin_text {
        Some(t) => {
            let chars = chars_of(t);
            assert(chars@.subrange(0, chars.len() as int) =~= chars@);
            let (a, b) = trim_bounds(&chars, 0, chars.len());
            if a < b {
                Ok(Some(string_of(&chars, a, b)))
            } else {
                Err(AuthError(String::from_str(EMPTY_STDIN_MSG)))
            }
        },
        None => match flag {
            Some(v) => Ok(Some(String::from_str(v))),
            None => match env {
                Some(v) => if v.unicode_len() > 0 {
                    Ok(Some(String::from_str(v)))
                } else {
                    Ok(None)
                },
                None => Ok(None),
            },
        },
    }
}

/// A cookie value read from a profile is accepted when it is not empty;
/// otherwise the search goes on to the next profile.
pub fn accept_session_value(found: Option<&str>) -> (res: Option<String>)
    ensures
        match found {
            Some(v) => if v@.len() > 0 {
                res is Some && res->0@ == v@
            } else {
                res is None
            },
            None => res is None,
        },
{
    match found {
        Some(v) => if v.unicode_len() > 0 {
            Some(String::from_str(v))
        } else {
            None
        },
        None => None,
    }
}

/// Profile `x` is searched before profile `y`: its cookie database was
/// modified later, or at the same time and it was listed later.
pub open spec fn searched_before(mtimes: Seq<u128>, x: usize, y: usize) -> bool {
    mtimes[x as int] > mtimes[y as int] || (mtimes[x as int] == mtimes[y as int] && x > y)
}

/// An order of the profiles `0..mtimes.len()`: each exactly once, newest
/// cookie database first.
pub open spec fn is_search_order(mtimes: Seq<u128>, order: Seq<usize>) -> bool {
    &&& order.len() == mtimes.len()
    &&& order.no_duplicates()
    &&& forall|a: int| 0 <= a < order.len() ==> #[trigger] order[a] < mtimes.len()
    &&& forall|a: int, b: int|
        0 <= a < b < order.len() ==> searched_before(mtimes, #[trigger] order[a], #[trigger] order[b])
}

/// The order in which to search profiles whose cookie databases were last
/// modified at `mtimes` (nanoseconds since the epoch): most recent first,
/// and among equal times the later-listed first.
pub fn profile_search_order(mtimes: &Vec<u128>) -> (res: Vec<usize>)
    ensures
        is_search_order(mtimes@, res@),
{
    let n = mtimes.len();
    let mut order: Vec<usize> = Vec::new();
    let mut i: usize = 0;
    while i < n
        invariant
            i <= n,
            n == mtimes@.len(),
            order.len() == i,
            order@.no_duplicates(),
            forall|a: int| 0 <= a < order.len() ==> #[trigger] order@[a] < i,
            forall|a: int, b: int|
                0 <= a < b < order.len() ==> searched_before(
                    mtimes@,
                    #[trigger] order@[a],
                    #[trigger] order@[b],
                ),
        decreases n - i,
    {
        // the new profile `i` goes before the first entry it precedes
        let mut pos: usize = 0;
        while pos < order.len() && !(mtimes[i] > mtimes[order[pos]] || mtimes[i] == mtimes[order[pos]])
            invariant
                pos <= order.len(),
                i < n,
                n == mtimes@.len(),
                forall|a: int| 0 <= a < order.len() ==> #[trigger] order@[a] < i,
                forall|a: int| 0 <= a < pos ==> searched_before(mtimes@, #[trigger] order@[a], i),
            decreases order.len() - pos,
        {
            assert(order@[pos as int] < i);
            pos = pos + 1;
        }
        proof {
            // every entry from `pos` on comes after `i`
            if pos < order.len() {
                assert forall|b: int| pos <= b < order.len() implies searched_before(
                    mtimes@,
                    i,
                    #[trigger] order@[b],
                ) by {
                    assert(order@[b] < i);
                    if b > pos {
                        assert(searched_before(mtimes@, order@[pos as int], order@[b]));
                    }
                }
            }
        }
        let ghost before = order@;
        order.insert(pos, i);
        proof {
            assert(order@ == before.insert(pos as int, i));
            assert forall|a: int| 0 <= a < order.len() implies #[trigger] order@[a] < i + 1 by {
                if a < pos {
                    assert(order@[a] == before[a]);
                } else if a > pos {
                    assert(order@[a] == before[a - 1]);
                }
            }
            assert forall|a: int, b: int| 0 <= a < b < order.len() implies searched_before(
                mtimes@,
                #[trigger] order@[a],
                #[trigger] order@[b],
            ) by {
                if b < pos {
                    assert(order@[a] == before[a] && order@[b] == before[b]);
                } else if b == pos {
                    assert(order@[a] == before[a]);
                } else if a < pos {
                    assert(order@[a] == before[a] && order@[b] == before[b - 1]);
                    assert(searched_before(mtimes@, i, before[b - 1]));
                    if a < pos {
                        assert(searched_before(mtimes@, before[a], i));
                    }
                } else if a == pos {
                    assert(order@[b] == before[b - 1]);
                } else {
                    assert(order@[a] == before[a - 1] && order@[b] == before[b - 1]);
                }
            }
            assert forall|a: int, b: int| 0 <= a < b < order.len() implies order@[a] != order@[b] by {
                assert(searched_before(mtimes@, order@[a], order@[b]));
            }
        }
        i = i + 1;
    }
    order
}

} // verus!
