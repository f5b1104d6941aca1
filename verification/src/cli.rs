//! The command line's decisions: which purchase a key argument names, which
//! formats were asked for, when the cache answers for an order, and the
//! exit status.
use vstd::prelude::*;

use crate::api::{
    build_tasks, formats_view, spec_build_tasks, str_lowercase, strings_view, tasks_view,
    HumbleClientError, Order,
};
use crate::downloader::DownloadTask;
use crate::naming::last_index_of;
use crate::text::{chars_of, string_of, trim, trim_bounds};

verus! {

/// Start of the first occurrence of `pat` in `s` at or after `i`.
pub open spec fn first_occurrence_from(s: Seq<char>, pat: Seq<char>, i: int) -> Option<int>
    decreases s.len() + 1 - i,
{
    if i < 0 || i + pat.len() > s.len() {
        None
    } else if s.subrange(i, i + pat.len()) == pat {
        Some(i)
    } else {
        first_occurrence_from(s, pat, i + 1)
    }
}

pub open spec fn is_ascii_alnum(c: char) -> bool {
    ('a' <= c && c <= 'z') || ('A' <= c && c <= 'Z') || ('0' <= c && c <= '9')
}

/// The number of ASCII alphanumeric characters at the start of `s`.
pub open spec fn alnum_prefix_len(s: Seq<char>) -> nat
    decreases s.len(),
{
    if s.len() > 0 && is_ascii_alnum(s[0]) {
        1 + alnum_prefix_len(s.drop_first())
    } else {
        0
    }
}

pub open spec fn key_marker() -> Seq<char> {
    seq!['k', 'e', 'y', '=']
}

/// The purchase key an argument names: the ASCII alphanumeric run after the
/// first `key=` when that run is non-empty (a downloads URL), otherwise the
/// argument itself (a bare key).
pub open spec fn spec_parse_key(arg: Seq<char>) -> Seq<char> {
    match first_occurrence_from(arg, key_marker(), 0) {
        Some(idx) => {
            let rest = arg.skip(idx + 4);
            let end = alnum_prefix_len(rest);
            if end > 0 {
                rest.take(end as int)
            } else {
                arg
            }
        },
        None => arg,
    }
}

/// Start of the first `key=` in `chars`.
fn find_key_marker(chars: &Vec<char>) -> (res: Option<usize>)
    ensures
        match res {
            Some(i) => i + 4 <= chars.len() && first_occurrence_from(chars@, key_marker(), 0) == Some(
                i as int,
            ),
            None => first_occurrence_from(chars@, key_marker(), 0) is None,
        },
{
    let n = chars.len();
    let mut i: usize = 0;
    while i < n && n - i >= 4
        invariant
            n == chars@.len(),
            i <= n,
            first_occurrence_from(chars@, key_marker(), 0) == first_occurrence_from(
                chars@,
                key_marker(),
                i as int,
            ),
        decreases n - i,
    {
        if chars[i] == 'k' && chars[i + 1] == 'e' && chars[i + 2] == 'y' && chars[i + 3] == '=' {
            assert(chars@.subrange(i as int, i + 4) =~= key_marker());
            return Some(i);
        }
        assert(chars@.subrange(i as int, i + 4) != key_marker()) by {
            if chars@.subrange(i as int, i + 4) == key_marker() {
                assert(chars@.subrange(i as int, i + 4)[0] == chars@[i as int]);
                assert(chars@.subrange(i as int, i + 4)[1] == chars@[i + 1]);
                assert(chars@.subrange(i as int, i + 4)[2] == chars@[i + 2]);
                assert(chars@.subrange(i as int, i + 4)[3] == chars@[i + 3]);
            }
        }
        i = i + 1;
    }
    None
}

/// The purchase key in a command-line argument (a bare key or a downloads
/// URL with `key=`).
pub fn parse_key(arg: &str) -> (res: String)
    ensures
        res@ == spec_parse_key(arg@),
{
    let chars = chars_of(arg);
    let n = chars.len();
    match find_key_marker(&chars) {
        Some(idx) => {
            let start = idx + 4;
            let ghost rest = arg@.skip(start as int);
            let mut e: usize = start;
            assert(rest =~= chars@.subrange(start as int, n as int));
            while e < n && ((chars[e] >= 'a' && chars[e] <= 'z') || (chars[e] >= 'A' && chars[e]
                <= 'Z') || (chars[e] >= '0' && chars[e] <= '9'))
                invariant
                    start <= e <= n,
                    n == chars@.len(),
                    chars@ == arg@,
                    rest == arg@.skip(start as int),
                    alnum_prefix_len(rest) == (e - start) + alnum_prefix_len(
                        chars@.subrange(e as int, n as int),
                    ),
                decreases n - e,
            {
                assert(chars@.subrange(e as int, n as int).drop_first() =~= chars@.subrange(
                    e + 1,
                    n as int,
                ));
                e = e + 1;
            }
            assert(alnum_prefix_len(chars@.subrange(e as int, n as int)) == 0);
            if e > start {
                assert(rest.take(e - start) =~= chars@.subrange(start as int, e as int));
                string_of(&chars, start, e)
            } else {
                String::from_str(arg)
            }
        },
        None => String::from_str(arg),
    }
}

} // verus!

verus! {

/// The pieces of `s` between commas (what `str::split(',')` yields).
pub open spec fn split_commas(s: Seq<char>) -> Seq<Seq<char>>
    decreases s.len(),
{
    match last_index_of(s, ',') {
        Some(i) => {
            proof {
                crate::naming::lemma_last_index_of(s, ',');
            }
            split_commas(s.take(i)).push(s.skip(i + 1))
        },
        None => seq![s],
    }
}

/// A requested format as written in one comma-separated piece: trimmed,
/// then lowercased.
pub open spec fn format_entry(piece: Seq<char>) -> Seq<char> {
    str_lowercase(trim(piece))
}

/// Whether `--formats s` asks for format `f`: some piece gives `f`, and `f`
/// is not empty.
pub open spec fn requested(s: Seq<char>, f: Seq<char>) -> bool {
    f.len() > 0 && exists|i: int|
        0 <= i < split_commas(s).len() && #[trigger] format_entry(split_commas(s)[i]) == f
}

proof fn lemma_split_push(p: Seq<char>, c: char)
    ensures
        split_commas(p).len() > 0,
        c == ',' ==> split_commas(p.push(c)) == split_commas(p).push(Seq::<char>::empty()),
        c != ',' ==> split_commas(p.push(c)) == split_commas(p).drop_last().push(
            split_commas(p).last().push(c),
        ),
{
    let q = p.push(c);
    assert(q.drop_last() =~= p);
    crate::naming::lemma_last_index_of(p, ',');
    if c == ',' {
        assert(last_index_of(q, ',') == Some(p.len() as int));
        assert(q.take(p.len() as int) =~= p);
        assert(q.skip(p.len() as int + 1) =~= Seq::<char>::empty());
    } else {
        assert(last_index_of(q, ',') == last_index_of(p, ','));
        match last_index_of(p, ',') {
            Some(k) => {
                assert(q.take(k) =~= p.take(k));
                assert(q.skip(k + 1) =~= p.skip(k + 1).push(c));
                assert(split_commas(p).drop_last() =~= split_commas(p.take(k)));
            },
            None => {
                assert(split_commas(p) == seq![p]);
                assert(split_commas(q) == seq![q]);
                assert(split_commas(p).drop_last().push(p.push(c)) =~= seq![q]);
            },
        }
    }
}

/// The comma-separated pieces of `s`.
fn split_pieces(s: &str) -> (res: Vec<String>)
    ensures
        strings_view(res@) == split_commas(s@),
{
    let chars = chars_of(s);
    let mut pieces: Vec<String> = Vec::new();
    let mut start: usize = 0;
    let mut i: usize = 0;
    assert(chars@.take(0) =~= Seq::<char>::empty());
    assert(last_index_of(Seq::<char>::empty(), ',') is None);
    assert(split_commas(chars@.take(0)) == seq![Seq::<char>::empty()]);
    assert(strings_view(pieces@).push(chars@.subrange(0, 0)) =~= seq![Seq::<char>::empty()]);
    while i < chars.len()
        invariant
            start <= i <= chars.len(),
            chars@ == s@,
            split_commas(chars@.take(i as int)) == strings_view(pieces@).push(
                chars@.subrange(start as int, i as int),
            ),
        decreases chars.len() - i,
    {
        let c = chars[i];
        let ghost p = chars@.take(i as int);
        assert(chars@.take(i + 1) =~= p.push(c));
        proof {
            lemma_split_push(p, c);
        }
        if c == ',' {
            let piece = string_of(&chars, start, i);
            let ghost before = pieces@;
            pieces.push(piece);
            assert(strings_view(pieces@) =~= strings_view(before).push(piece@));
            start = i + 1;
            assert(chars@.subrange(start as int, i + 1) =~= Seq::<char>::empty());
        } else {
            assert(chars@.subrange(start as int, i + 1) =~= chars@.subrange(start as int, i as int).push(c));
            assert(strings_view(pieces@).push(chars@.subrange(start as int, i + 1)) =~= strings_view(
                pieces@,
            ).push(chars@.subrange(start as int, i as int)).drop_last().push(
                chars@.subrange(start as int, i as int).push(c),
            ));
        }
        i = i + 1;
    }
    let last = string_of(&chars, start, chars.len());
    let ghost before = pieces@;
    pieces.push(last);
    assert(strings_view(pieces@) =~= strings_view(before).push(last@));
    assert(chars@.take(chars.len() as int) =~= chars@);
    pieces
}

/// The formats asked for by a `--formats` value: each comma-separated piece
/// trimmed and lowercased, empty ones dropped, each format once.
pub fn parse_formats(s: &str) -> (res: Vec<String>)
    ensures
        strings_view(res@).no_duplicates(),
        forall|f: Seq<char>| #[trigger] strings_view(res@).contains(f) == requested(s@, f),
{
    let pieces = split_pieces(s);
    let ghost sp = split_commas(s@);
    let mut res: Vec<String> = Vec::new();
    let mut i: usize = 0;
    while i < pieces.len()
        invariant
            i <= pieces.len(),
            strings_view(pieces@) == sp,
            sp == split_commas(s@),
            strings_view(res@).no_duplicates(),
            forall|f: Seq<char>|
                #[trigger] strings_view(res@).contains(f) == (f.len() > 0 && exists|j: int|
                    0 <= j < i && #[trigger] format_entry(sp[j]) == f),
        decreases pieces.len() - i,
    {
        let chars = chars_of(pieces[i].as_str());
        assert(chars@ == sp[i as int]);
        let (a, b) = trim_bounds(&chars, 0, chars.len());
        assert(chars@.subrange(0, chars.len() as int) =~= chars@);
        let trimmed = string_of(&chars, a, b);
        let entry = crate::api::to_lowercase(trimmed.as_str());
        assert(entry@ == format_entry(sp[i as int]));
        let ghost before = res@;
        if entry.unicode_len() > 0 && !crate::api::contains_format(&res, entry.as_str()) {
            res.push(entry);
            proof {
                assert(strings_view(res@) =~= strings_view(before).push(entry@));
                assert forall|x: int, y: int|
                    0 <= x < y < strings_view(res@).len() implies strings_view(res@)[x]
                    != strings_view(res@)[y] by {
                    if y == strings_view(res@).len() - 1 {
                        assert(strings_view(before).contains(strings_view(before)[x]));
                    } else {
                        assert(strings_view(before)[x] == strings_view(res@)[x]);
                        assert(strings_view(before)[y] == strings_view(res@)[y]);
                    }
                }
            }
        }
        proof {
            assert forall|f: Seq<char>|
                #[trigger] strings_view(res@).contains(f) == (f.len() > 0 && exists|j: int|
                    0 <= j < i + 1 && #[trigger] format_entry(sp[j]) == f) by {
                if strings_view(res@).contains(f) {
                    if strings_view(before).contains(f) {
                        let j = choose|j: int| 0 <= j < i && #[trigger] format_entry(sp[j]) == f;
                        assert(0 <= j < i + 1 && format_entry(sp[j]) == f);
                    } else {
                        let k = choose|k: int|
                            0 <= k < strings_view(res@).len() && strings_view(res@)[k] == f;
                        if k < strings_view(before).len() {
                            assert(strings_view(before)[k] == strings_view(res@)[k]);
                        }
                        assert(format_entry(sp[i as int]) == f);
                    }
                }
                if f.len() > 0 && exists|j: int| 0 <= j < i + 1 && #[trigger] format_entry(sp[j]) == f {
                    let j = choose|j: int| 0 <= j < i + 1 && #[trigger] format_entry(sp[j]) == f;
                    if j < i {
                        assert(strings_view(before).contains(f));
                        let k = choose|k: int|
                            0 <= k < strings_view(before).len() && strings_view(before)[k] == f;
                        assert(strings_view(res@)[k] == f);
                    } else {
                        assert(f == entry@);
                        if strings_view(before).contains(f) {
                            let k = choose|k: int|
                                0 <= k < strings_view(before).len() && strings_view(before)[k] == f;
                            assert(strings_view(res@)[k] == f);
                        } else {
                            assert(strings_view(res@).last() == f);
                        }
                    }
                }
            }
        }
        i = i + 1;
    }
    res
}

} // verus!

verus! {

/// Whether every entry of `present` is true.
pub open spec fn all_true(present: Seq<bool>) -> bool {
    forall|i: int| 0 <= i < present.len() ==> present[i]
}

/// Whether an order is answered from the cache: only when not refreshing,
/// a cached copy exists (`cached_present` holds, for each task built from
/// it, whether that file is already on disk) and every one of its files is
/// already present. Otherwise its signed URLs may have expired, so the
/// order is fetched again.
pub fn cached_order_suffices(refresh: bool, cached_present: Option<&Vec<bool>>) -> (res: bool)
    ensures
        res == (!refresh && match cached_present {
            Some(p) => all_true(p@),
            None => false,
        }),
{
    if refresh {
        return false;
    }
    match cached_present {
        Some(p) => {
            let mut i: usize = 0;
            while i < p.len()
                invariant
                    i <= p.len(),
                    cached_present == Some(p),
                    !refresh,
                    forall|j: int| 0 <= j < i ==> p@[j],
                decreases p.len() - i,
            {
                if !p[i] {
                    assert(!p@[i as int]);
                    return false;
                }
                i = i + 1;
            }
            true
        },
        None => false,
    }
}

/// The number of `true` entries.
pub open spec fn count_true(present: Seq<bool>) -> nat
    decreases present.len(),
{
    if present.len() == 0 {
        0
    } else {
        count_true(present.drop_last()) + if present.last() {
            1nat
        } else {
            0nat
        }
    }
}

proof fn lemma_count_true_bound(present: Seq<bool>)
    ensures
        count_true(present) <= present.len(),
    decreases present.len(),
{
    if present.len() > 0 {
        lemma_count_true_bound(present.drop_last());
    }
}

/// The pre-flight summary for tasks whose files are present or not:
/// (available, already downloaded, to download).
pub fn preflight_counts(present: &Vec<bool>) -> (res: (usize, usize, usize))
    ensures
        res.0 == present.len(),
        res.1 == count_true(present@),
        res.2 == present.len() - count_true(present@),
{
    let mut already: usize = 0;
    let mut i: usize = 0;
    while i < present.len()
        invariant
            i <= present.len(),
            already == count_true(present@.take(i as int)),
            already <= i,
        decreases present.len() - i,
    {
        assert(present@.take(i + 1).drop_last() =~= present@.take(i as int));
        if present[i] {
            already = already + 1;
        }
        i = i + 1;
    }
    assert(present@.take(present.len() as int) =~= present@);
    (present.len(), already, present.len() - already)
}

/// The process exit status: 1 when any download or purchase key failed,
/// 0 otherwise.
pub fn exit_status(failed_downloads: usize, key_failures: usize) -> (res: u8)
    ensures
        res == if failed_downloads > 0 || key_failures > 0 {
            1u8
        } else {
            0u8
        },
{
    if failed_downloads > 0 || key_failures > 0 {
        1
    } else {
        0
    }
}

} // verus!

verus! {

proof fn lemma_alnum_prefix_chars(s: Seq<char>)
    ensures
        alnum_prefix_len(s) <= s.len(),
        forall|j: int| 0 <= j < alnum_prefix_len(s) ==> is_ascii_alnum(#[trigger] s[j]),
    decreases s.len(),
{
    if s.len() > 0 && is_ascii_alnum(s[0]) {
        lemma_alnum_prefix_chars(s.drop_first());
        assert forall|j: int| 0 <= j < alnum_prefix_len(s) implies is_ascii_alnum(#[trigger] s[j]) by {
            if j > 0 {
                assert(s[j] == s.drop_first()[j - 1]);
            }
        }
    }
}

proof fn lemma_no_marker_without_equals(s: Seq<char>, i: int)
    requires
        0 <= i,
        forall|j: int| 0 <= j < s.len() ==> #[trigger] s[j] != '=',
    ensures
        first_occurrence_from(s, key_marker(), i) is None,
    decreases s.len() + 1 - i,
{
    if i + 4 <= s.len() {
        assert(s.subrange(i, i + 4)[3] == s[i + 3]);
        lemma_no_marker_without_equals(s, i + 1);
    }
}

/// Reading the key out of an already-read key changes nothing.
pub proof fn law_parse_key_idempotent(arg: Seq<char>)
    ensures
        spec_parse_key(spec_parse_key(arg)) == spec_parse_key(arg),
{
    let k = spec_parse_key(arg);
    if let Some(idx) = first_occurrence_from(arg, key_marker(), 0) {
        let rest = arg.skip(idx + 4);
        let end = alnum_prefix_len(rest);
        if end > 0 {
            lemma_alnum_prefix_chars(rest);
            assert forall|j: int| 0 <= j < k.len() implies #[trigger] k[j] != '=' by {
                assert(k[j] == rest[j]);
                assert(is_ascii_alnum(rest[j]));
            }
            lemma_no_marker_without_equals(k, 0);
        }
    }
}

} // verus!

verus! {

/// How the tasks of one order key are obtained.
#[derive(Debug, Clone, Copy, PartialEq, Eq)]
pub enum OrderPlan {
    /// The cached order answers; no request is made.
    FromCache,
    /// The order is fetched once; on success it is written back to the
    /// cache when `write_back` holds.
    Fetch { write_back: bool },
}

/// The plan for one order key: the cache answers only when not refreshing,
/// a cache directory exists, a cached copy was found (`cached_present`, one
/// entry per task built from it, says whether that file is already on
/// disk) and every file is present; otherwise the order is fetched, and
/// written back exactly when there is a cache directory.
pub fn plan_order(refresh: bool, has_cache_dir: bool, cached_present: Option<&Vec<bool>>) -> (res:
    OrderPlan)
    ensures
        res == if has_cache_dir && !refresh && match cached_present {
            Some(p) => all_true(p@),
            None => false,
        } {
            OrderPlan::FromCache
        } else {
            OrderPlan::Fetch { write_back: has_cache_dir }
        },
{
    if has_cache_dir && cached_order_suffices(refresh, cached_present) {
        OrderPlan::FromCache
    } else {
        OrderPlan::Fetch { write_back: has_cache_dir }
    }
}

/// Where the resolution of one order key stands.
#[derive(Clone, Copy, PartialEq, Eq, Debug)]
pub enum Resolve {
    /// Nothing decided yet.
    Start,
    /// The order was requested; `write_back` says whether a fetched order
    /// is to be written to the cache.
    Awaiting { write_back: bool },
    /// The key is resolved; nothing more happens.
    Done,
}

/// What the caller reports to the resolution.
pub enum ResolveInput {
    /// The request to resolve: whether to refresh, whether a cache
    /// directory exists, and, when a cached copy was found, whether each
    /// file of the tasks built from it is on disk.
    Begin { refresh: bool, has_cache_dir: bool, cached_present: Option<Vec<bool>> },
    /// What the request for the order gave back.
    Fetched(Result<Order, HumbleClientError>),
}

/// What the caller is to do next.
pub enum ResolveAction {
    /// Answer with the cached order and the tasks built from it.
    AnswerFromCache,
    /// Request the order from the server and report the result.
    FetchOrder,
    /// Answer with the fetched order and its tasks, after writing the order
    /// to the cache when `write_back` holds.
    Answer { order: Order, tasks: Vec<DownloadTask>, write_back: bool },
    /// Answer with the request's error; the cache is left as it is.
    Fail(HumbleClientError),
    /// The report does not fit the state; nothing is to be done.
    Ignore,
}

/// How many requests for the order a resolution in state `s` may still
/// make.
pub open spec fn fetch_budget(s: Resolve) -> nat {
    match s {
        Resolve::Start => 1,
        _ => 0,
    }
}

/// One step of resolving an order key. On `Begin` the cache answers when
/// `plan_order` says so; otherwise the order is requested, once. When the
/// request comes back, a fetched order is answered with the tasks built
/// from it (and written back when there is a cache directory), an error is
/// passed on with the cache untouched, and the resolution is done. Every
/// request for the order uses up the single one that a resolution has, so
/// a run of steps from `Start` requests it at most once.
pub fn resolve_step(
    state: Resolve,
    input: ResolveInput,
    output: &str,
    formats: Option<&Vec<String>>,
) -> (res: (Resolve, ResolveAction))
    ensures
        fetch_budget(res.0) + (if res.1 is FetchOrder {
            1int
        } else {
            0int
        }) <= fetch_budget(state),
        state is Done ==> res.0 is Done && res.1 is Ignore,
        match (state, input) {
            (Resolve::Start, ResolveInput::Begin { refresh, has_cache_dir, cached_present }) => {
                if has_cache_dir && !refresh && match cached_present {
                    Some(p) => all_true(p@),
                    None => false,
                } {
                    res.0 is Done && res.1 is AnswerFromCache
                } else {
                    res.0 == (Resolve::Awaiting { write_back: has_cache_dir })
                        && res.1 is FetchOrder
                }
            },
            (Resolve::Awaiting { write_back }, ResolveInput::Fetched(Ok(o))) => {
                &&& res.0 is Done
                &&& res.1 matches ResolveAction::Answer { order, tasks, write_back: w }
                &&& order == o
                &&& w == write_back
                &&& tasks_view(tasks@) == spec_build_tasks(o@, output@, formats_view(formats))
            },
            (Resolve::Awaiting { write_back }, ResolveInput::Fetched(Err(e))) => {
                res.0 is Done && res.1 == ResolveAction::Fail(e)
            },
            _ => res.0 == state && res.1 is Ignore,
        },
{
    match (state, input) {
        (Resolve::Start, ResolveInput::Begin { refresh, has_cache_dir, cached_present }) => {
            match plan_order(refresh, has_cache_dir, cached_present.as_ref()) {
                OrderPlan::FromCache => (Resolve::Done, ResolveAction::AnswerFromCache),
                OrderPlan::Fetch { write_back } => (
                    Resolve::Awaiting { write_back },
                    ResolveAction::FetchOrder,
                ),
            }
        },
        (Resolve::Awaiting { write_back }, ResolveInput::Fetched(fetched)) => {
            match fetched {
                Ok(order) => {
                    let tasks = build_tasks(&order, output, formats);
                    (Resolve::Done, ResolveAction::Answer { order, tasks, write_back })
                },
                Err(e) => (Resolve::Done, ResolveAction::Fail(e)),
            }
        },
        (state, _) => (state, ResolveAction::Ignore),
    }
}

/// Over any run of resolution steps that starts in `Start`, where each step
/// keeps what `resolve_step` ensures of the fetch budget (`states[i]` before
/// step `i`, `states[i + 1]` after it, `requested[i]` whether it asked for
/// the order), the order is requested at most once.
pub proof fn law_order_requested_at_most_once(states: Seq<Resolve>, requested: Seq<bool>)
    requires
        states.len() == requested.len() + 1,
        states[0] == Resolve::Start,
        forall|i: int|
            0 <= i < requested.len() ==> fetch_budget(#[trigger] states[i + 1]) + (if requested[i] {
                1int
            } else {
                0int
            }) <= fetch_budget(states[i]),
    ensures
        count_true(requested) <= 1,
{
    lemma_requests_within_budget(states, requested);
}

proof fn lemma_requests_within_budget(states: Seq<Resolve>, requested: Seq<bool>)
    requires
        states.len() == requested.len() + 1,
        forall|i: int|
            0 <= i < requested.len() ==> fetch_budget(#[trigger] states[i + 1]) + (if requested[i] {
                1int
            } else {
                0int
            }) <= fetch_budget(states[i]),
    ensures
        count_true(requested) + fetch_budget(states.last()) <= fetch_budget(states[0]),
    decreases requested.len(),
{
    if requested.len() > 0 {
        let n = requested.len() - 1;
        let s2 = states.drop_last();
        let r2 = requested.drop_last();
        assert forall|i: int| 0 <= i < r2.len() implies fetch_budget(#[trigger] s2[i + 1]) + (if r2[i] {
            1int
        } else {
            0int
        }) <= fetch_budget(s2[i]) by {
            assert(s2[i + 1] == states[i + 1]);
            assert(s2[i] == states[i]);
        }
        lemma_requests_within_budget(s2, r2);
        assert(fetch_budget(states[n + 1]) + (if requested[n] { 1int } else { 0int }) <= fetch_budget(states[n]));
    }
}

} // verus!
