//! Directory-name derivation: bundle-title parsing and path-segment sanitizing.
use vstd::prelude::*;

use crate::text::{
    chars_of, is_whitespace, is_ws, opt_view, string_of, trim, trim_bounds,
};

verus! {

/// `s` with every NUL and `/` replaced by `_`.
pub open spec fn replace_reserved(s: Seq<char>) -> Seq<char> {
    s.map_values(|c: char| if c == '\0' || c == '/' { '_' } else { c })
}

/// Length of the run of non-whitespace characters at the end of `s`.
pub open spec fn trailing_word_len(s: Seq<char>) -> nat
    decreases s.len(),
{
    if s.len() == 0 || is_ws(s.last()) {
        0
    } else {
        1 + trailing_word_len(s.drop_last())
    }
}

pub proof fn lemma_trailing_word_len_bound(s: Seq<char>)
    ensures
        trailing_word_len(s) <= s.len(),
        s.len() > 0 && !is_ws(s.last()) ==> trailing_word_len(s) >= 1,
    decreases s.len(),
{
    if s.len() > 0 && !is_ws(s.last()) {
        lemma_trailing_word_len_bound(s.drop_last());
    }
}

/// The maximal runs of non-whitespace characters of `s`, in order
/// (what `str::split_whitespace` yields).
pub open spec fn words(s: Seq<char>) -> Seq<Seq<char>>
    decreases s.len(),
{
    if s.len() == 0 {
        seq![]
    } else if is_ws(s.last()) {
        words(s.drop_last())
    } else {
        let n = trailing_word_len(s);
        proof {
            lemma_trailing_word_len_bound(s);
        }
        words(s.take(s.len() - n)).push(s.skip(s.len() - n))
    }
}

/// The parts joined with `sep` between consecutive parts.
pub open spec fn join(parts: Seq<Seq<char>>, sep: Seq<char>) -> Seq<char>
    decreases parts.len(),
{
    if parts.len() == 0 {
        seq![]
    } else if parts.len() == 1 {
        parts[0]
    } else {
        join(parts.drop_last(), sep) + sep + parts.last()
    }
}

/// The words of `s` separated by single spaces.
pub open spec fn collapse_whitespace(s: Seq<char>) -> Seq<char> {
    join(words(s), seq![' '])
}

/// `s` with trailing `.` and space characters removed.
pub open spec fn trim_end_dots_spaces(s: Seq<char>) -> Seq<char>
    decreases s.len(),
{
    if s.len() > 0 && (s.last() == '.' || s.last() == ' ') {
        trim_end_dots_spaces(s.drop_last())
    } else {
        s
    }
}

/// The fallback name for a segment that sanitizes to nothing.
pub open spec fn unnamed() -> Seq<char> {
    seq!['U', 'n', 'n', 'a', 'm', 'e', 'd']
}

/// What `sanitize` makes of `name`: NUL and `/` become `_`, whitespace runs
/// collapse to single spaces, trailing dots and spaces go, and an empty
/// result becomes `Unnamed`.
pub open spec fn spec_sanitize(name: Seq<char>) -> Seq<char> {
    let t = trim_end_dots_spaces(collapse_whitespace(replace_reserved(name)));
    if t.len() == 0 {
        unnamed()
    } else {
        t
    }
}

proof fn lemma_words_push_ws(p: Seq<char>, c: char)
    requires
        is_ws(c),
    ensures
        words(p.push(c)) == words(p),
{
    assert(p.push(c).drop_last() =~= p);
}

proof fn lemma_words_push_start(p: Seq<char>, c: char)
    requires
        !is_ws(c),
        p.len() == 0 || is_ws(p.last()),
    ensures
        words(p.push(c)) == words(p).push(seq![c]),
{
    let q = p.push(c);
    assert(q.drop_last() =~= p);
    assert(trailing_word_len(p) == 0);
    assert(trailing_word_len(q) == 1);
    assert(q.take(q.len() - 1) =~= p);
    assert(q.skip(q.len() - 1) =~= seq![c]);
}

proof fn lemma_words_push_extend(p: Seq<char>, c: char)
    requires
        !is_ws(c),
        p.len() > 0,
        !is_ws(p.last()),
    ensures
        words(p).len() > 0,
        words(p.push(c)) == words(p).drop_last().push(words(p).last().push(c)),
{
    let q = p.push(c);
    let n = trailing_word_len(p);
    lemma_trailing_word_len_bound(p);
    assert(q.drop_last() =~= p);
    assert(trailing_word_len(q) == n + 1);
    assert(q.take(q.len() - (n + 1)) =~= p.take(p.len() - n));
    assert(q.skip(q.len() - (n + 1)) =~= p.skip(p.len() - n).push(c));
    assert(words(p) == words(p.take(p.len() - n)).push(p.skip(p.len() - n)));
    assert(words(p).drop_last() =~= words(p.take(p.len() - n)));
}

proof fn lemma_join_push(parts: Seq<Seq<char>>, x: Seq<char>, sep: Seq<char>)
    ensures
        join(parts.push(x), sep) == if parts.len() == 0 {
            x
        } else {
            join(parts, sep) + sep + x
        },
{
    assert(parts.push(x).drop_last() =~= parts);
}

proof fn lemma_join_extend_last(parts: Seq<Seq<char>>, c: char, sep: Seq<char>)
    requires
        parts.len() > 0,
    ensures
        join(parts.drop_last().push(parts.last().push(c)), sep) == join(parts, sep).push(c),
{
    let v = parts.drop_last();
    assert(v.push(parts.last()) =~= parts);
    lemma_join_push(v, parts.last().push(c), sep);
    lemma_join_push(v, parts.last(), sep);
    if v.len() > 0 {
        assert(join(v, sep) + sep + parts.last().push(c) =~= (join(v, sep) + sep
            + parts.last()).push(c));
    }
}

/// Collapses the whitespace runs of `v` to single spaces, dropping leading
/// and trailing whitespace.
fn collapse_chars(v: &Vec<char>) -> (res: Vec<char>)
    ensures
        res@ == collapse_whitespace(v@),
{
    let mut out: Vec<char> = Vec::new();
    let mut in_word = false;
    let mut i: usize = 0;
    while i < v.len()
        invariant
            i <= v.len(),
            out@ == join(words(v@.take(i as int)), seq![' ']),
            (out@.len() == 0) == (words(v@.take(i as int)).len() == 0),
            in_word == (i > 0 && !is_ws(v@[i - 1])),
        decreases v.len() - i,
    {
        let c = v[i];
        let ghost p = v@.take(i as int);
        assert(v@.take(i + 1) =~= p.push(c));
        if is_whitespace(c) {
            proof {
                lemma_words_push_ws(p, c);
            }
            in_word = false;
        } else if in_word {
            proof {
                lemma_words_push_extend(p, c);
                lemma_join_extend_last(words(p), c, seq![' ']);
            }
            out.push(c);
        } else {
            proof {
                lemma_words_push_start(p, c);
                lemma_join_push(words(p), seq![c], seq![' ']);
            }
            if out.len() > 0 {
                out.push(' ');
            }
            out.push(c);
            proof {
                if words(p).len() > 0 {
                    assert(out@ =~= join(words(p), seq![' ']) + seq![' '] + seq![c]);
                } else {
                    assert(out@ =~= seq![c]);
                }
            }
            in_word = true;
        }
        i = i + 1;
    }
    assert(v@.take(v.len() as int) =~= v@);
    out
}

/// Make a string safe to use as a single path segment on Linux.
pub fn sanitize(name: &str) -> (res: String)
    ensures
        res@ == spec_sanitize(name@),
{
    let chars = chars_of(name);
    let mut replaced: Vec<char> = Vec::new();
    let mut i: usize = 0;
    while i < chars.len()
        invariant
            i <= chars.len(),
            chars@ == name@,
            replaced@ == replace_reserved(chars@.take(i as int)),
        decreases chars.len() - i,
    {
        let c = chars[i];
        replaced.push(if c == '\0' || c == '/' { '_' } else { c });
        i = i + 1;
        assert(replaced@ =~= replace_reserved(chars@.take(i as int)));
    }
    assert(chars@.take(chars.len() as int) =~= chars@);
    let collapsed = collapse_chars(&replaced);
    let mut end: usize = collapsed.len();
    assert(collapsed@.take(end as int) =~= collapsed@);
    while end > 0 && (collapsed[end - 1] == '.' || collapsed[end - 1] == ' ')
        invariant
            end <= collapsed.len(),
            trim_end_dots_spaces(collapsed@) == trim_end_dots_spaces(collapsed@.take(end as int)),
        decreases end,
    {
        assert(collapsed@.take(end as int).drop_last() =~= collapsed@.take(end - 1));
        end = end - 1;
    }
    assert(collapsed@.take(end as int) =~= collapsed@.subrange(0, end as int));
    if end == 0 {
        let res = String::from_str("Unnamed");
        proof {
            reveal_strlit("Unnamed");
        }
        assert(res@ =~= unnamed());
        res
    } else {
        string_of(&collapsed, 0, end)
    }
}

} // verus!

verus! {

/// Index of the last `c` in `s`.
pub open spec fn last_index_of(s: Seq<char>, c: char) -> Option<int>
    decreases s.len(),
{
    if s.len() == 0 {
        None
    } else if s.last() == c {
        Some(s.len() - 1)
    } else {
        last_index_of(s.drop_last(), c)
    }
}

/// Start of the last occurrence of `pat` in `s`.
pub open spec fn last_occurrence(s: Seq<char>, pat: Seq<char>) -> Option<int>
    decreases s.len(),
{
    if s.len() == 0 || s.len() < pat.len() {
        None
    } else if s.subrange(s.len() - pat.len(), s.len() as int) == pat {
        Some(s.len() - pat.len())
    } else {
        last_occurrence(s.drop_last(), pat)
    }
}

/// The separator between a bundle name and its publisher.
pub open spec fn by_sep() -> Seq<char> {
    seq![' ', 'b', 'y', ' ']
}

/// The part of a bundle title after its last `:`, trimmed (the whole title,
/// trimmed, when there is no `:`).
pub open spec fn title_tail(title: Seq<char>) -> Seq<char> {
    match last_index_of(title, ':') {
        Some(i) => trim(title.skip(i + 1)),
        None => trim(title),
    }
}

/// What `parse_bundle_title` makes of `title`: the tail after the last `:`
/// is split at its last ` by ` into bundle and publisher when both halves
/// are non-empty after trimming; otherwise there is no publisher and the
/// bundle is the tail (or the trimmed title when the tail is empty).
pub open spec fn spec_parse_bundle_title(title: Seq<char>) -> (Option<Seq<char>>, Seq<char>) {
    let t = title_tail(title);
    let fallback = (None, if t.len() == 0 { trim(title) } else { t });
    match last_occurrence(t, by_sep()) {
        Some(k) => {
            let bundle = trim(t.take(k));
            let publisher = trim(t.skip(k + 4));
            if bundle.len() > 0 && publisher.len() > 0 {
                (Some(publisher), bundle)
            } else {
                fallback
            }
        },
        None => fallback,
    }
}

/// Index of the last `c` in `v`.
fn rfind_char(v: &Vec<char>, c: char) -> (res: Option<usize>)
    ensures
        match res {
            Some(i) => i < v.len() && last_index_of(v@, c) == Some(i as int),
            None => last_index_of(v@, c) is None,
        },
{
    let mut e: usize = v.len();
    assert(v@.take(e as int) =~= v@);
    while e > 0
        invariant
            e <= v.len(),
            last_index_of(v@, c) == last_index_of(v@.take(e as int), c),
        decreases e,
    {
        if v[e - 1] == c {
            return Some(e - 1);
        }
        assert(v@.take(e as int).drop_last() =~= v@.take(e - 1));
        e = e - 1;
    }
    None
}

/// Start of the last ` by ` in `v[from..to]`, as an index into `v`.
fn rfind_by(v: &Vec<char>, from: usize, to: usize) -> (res: Option<usize>)
    requires
        from <= to <= v.len(),
    ensures
        match res {
            Some(k) => from <= k && k + 4 <= to && last_occurrence(
                v@.subrange(from as int, to as int),
                by_sep(),
            ) == Some(k - from),
            None => last_occurrence(v@.subrange(from as int, to as int), by_sep()) is None,
        },
{
    let mut e: usize = to;
    while e - from >= 4
        invariant
            from <= e <= to <= v.len(),
            last_occurrence(v@.subrange(from as int, to as int), by_sep()) == last_occurrence(
                v@.subrange(from as int, e as int),
                by_sep(),
            ),
        decreases e,
    {
        let ghost s = v@.subrange(from as int, e as int);
        if v[e - 4] == ' ' && v[e - 3] == 'b' && v[e - 2] == 'y' && v[e - 1] == ' ' {
            assert(s.subrange(s.len() - 4, s.len() as int) =~= by_sep());
            return Some(e - 4);
        }
        assert(s.subrange(s.len() - 4, s.len() as int) != by_sep()) by {
            if s.subrange(s.len() - 4, s.len() as int) == by_sep() {
                assert(s.subrange(s.len() - 4, s.len() as int)[0] == v@[e - 4]);
                assert(s.subrange(s.len() - 4, s.len() as int)[1] == v@[e - 3]);
                assert(s.subrange(s.len() - 4, s.len() as int)[2] == v@[e - 2]);
                assert(s.subrange(s.len() - 4, s.len() as int)[3] == v@[e - 1]);
            }
        }
        assert(s.drop_last() =~= v@.subrange(from as int, e - 1));
        e = e - 1;
    }
    None
}

/// Split a Humble bundle title into (publisher, bundle_dir).
///
/// "Humble Tech Book Bundle: Intelligent Agents: Agentic AI and Large
/// Language Models by Apress" -> (Some("Apress"), "Agentic AI and Large
/// Language Models"). Publisher is None when the title has no " by
/// <Publisher>" suffix; caller falls back to the per-book publisher.
pub fn parse_bundle_title(title: &str) -> (res: (Option<String>, String))
    ensures
        opt_view(res.0) == spec_parse_bundle_title(title@).0,
        res.1@ == spec_parse_bundle_title(title@).1,
{
    let chars = chars_of(title);
    let n = chars.len();
    assert(chars@.subrange(0, n as int) =~= chars@);
    let (ta, tb) = match rfind_char(&chars, ':') {
        Some(i) => {
            assert(chars@.skip(i + 1) =~= chars@.subrange(i + 1, n as int));
            trim_bounds(&chars, i + 1, n)
        },
        None => trim_bounds(&chars, 0, n),
    };
    let ghost t = chars@.subrange(ta as int, tb as int);
    assert(t == title_tail(title@));
    match rfind_by(&chars, ta, tb) {
        Some(k) => {
            assert(t.take(k - ta) =~= chars@.subrange(ta as int, k as int));
            assert(t.skip(k - ta + 4) =~= chars@.subrange(k + 4, tb as int));
            let (ba, bb) = trim_bounds(&chars, ta, k);
            let (pa, pb) = trim_bounds(&chars, k + 4, tb);
            if ba < bb && pa < pb {
                return (Some(string_of(&chars, pa, pb)), string_of(&chars, ba, bb));
            }
        },
        None => {},
    }
    if ta == tb {
        let (a, b) = trim_bounds(&chars, 0, n);
        (None, string_of(&chars, a, b))
    } else {
        (None, string_of(&chars, ta, tb))
    }
}

} // verus!

verus! {

/// A character that may stand in a Linux path segment: neither `/` nor NUL.
pub open spec fn segment_char(c: char) -> bool {
    c != '/' && c != '\0'
}

/// Whitespace in `s` is only single spaces, each after a non-whitespace
/// character and before one (or at the end).
pub open spec fn spaced(s: Seq<char>) -> bool {
    forall|i: int|
        0 <= i < s.len() && #[trigger] is_ws(s[i]) ==> s[i] == ' ' && 0 < i && !is_ws(s[i - 1]) && (
        i + 1 < s.len() ==> !is_ws(s[i + 1]))
}

/// A non-empty string with no leading or trailing whitespace whose inner
/// whitespace is single spaces.
pub open spec fn normalized(s: Seq<char>) -> bool {
    s.len() > 0 && spaced(s) && !is_ws(s.last())
}

proof fn lemma_trailing_word_chars(s: Seq<char>)
    ensures
        forall|j: int| s.len() - trailing_word_len(s) <= j < s.len() ==> !is_ws(#[trigger] s[j]),
    decreases s.len(),
{
    lemma_trailing_word_len_bound(s);
    if s.len() > 0 && !is_ws(s.last()) {
        let p = s.drop_last();
        lemma_trailing_word_chars(p);
        assert forall|j: int| s.len() - trailing_word_len(s) <= j < s.len() implies !is_ws(
            #[trigger] s[j],
        ) by {
            if j < s.len() - 1 {
                assert(s[j] == p[j]);
            }
        }
    }
}

proof fn lemma_words_shape(s: Seq<char>)
    ensures
        forall|k: int|
            0 <= k < words(s).len() ==> (#[trigger] words(s)[k]).len() > 0 && forall|j: int|
                0 <= j < words(s)[k].len() ==> !is_ws(#[trigger] words(s)[k][j]),
    decreases s.len(),
{
    if s.len() == 0 {
    } else if is_ws(s.last()) {
        lemma_words_shape(s.drop_last());
        assert(words(s) == words(s.drop_last()));
    } else {
        let n = trailing_word_len(s);
        lemma_trailing_word_len_bound(s);
        lemma_trailing_word_chars(s);
        let p = s.take(s.len() - n);
        let w = s.skip(s.len() - n);
        lemma_words_shape(p);
        let ws = words(s);
        assert(ws == words(p).push(w));
        assert forall|k: int| 0 <= k < ws.len() implies (#[trigger] ws[k]).len() > 0 && forall|
            j: int,
        | 0 <= j < ws[k].len() ==> !is_ws(#[trigger] ws[k][j]) by {
            if k < words(p).len() {
                assert(ws[k] == words(p)[k]);
            } else {
                assert(ws[k] == w);
                assert forall|j: int| 0 <= j < w.len() implies !is_ws(#[trigger] w[j]) by {
                    assert(w[j] == s[s.len() - n + j]);
                }
            }
        }
    }
}

proof fn lemma_words_segment_chars(s: Seq<char>)
    requires
        forall|m: int| 0 <= m < s.len() ==> segment_char(#[trigger] s[m]),
    ensures
        forall|k: int, j: int|
            0 <= k < words(s).len() && 0 <= j < words(s)[k].len() ==> segment_char(
                #[trigger] words(s)[k][j],
            ),
    decreases s.len(),
{
    if s.len() == 0 {
    } else if is_ws(s.last()) {
        let p = s.drop_last();
        assert forall|m: int| 0 <= m < p.len() implies segment_char(#[trigger] p[m]) by {
            assert(p[m] == s[m]);
        }
        lemma_words_segment_chars(p);
        assert(words(s) == words(p));
    } else {
        let n = trailing_word_len(s);
        lemma_trailing_word_len_bound(s);
        let p = s.take(s.len() - n);
        let w = s.skip(s.len() - n);
        assert forall|m: int| 0 <= m < p.len() implies segment_char(#[trigger] p[m]) by {
            assert(p[m] == s[m]);
        }
        lemma_words_segment_chars(p);
        let ws = words(s);
        assert(ws == words(p).push(w));
        assert forall|k: int, j: int|
            0 <= k < ws.len() && 0 <= j < ws[k].len() implies segment_char(
            #[trigger] ws[k][j],
        ) by {
            if k < words(p).len() {
                assert(ws[k] == words(p)[k]);
            } else {
                assert(ws[k] == w);
                assert(w[j] == s[s.len() - n + j]);
            }
        }
    }
}

proof fn lemma_join_shape(parts: Seq<Seq<char>>)
    requires
        forall|k: int|
            0 <= k < parts.len() ==> (#[trigger] parts[k]).len() > 0 && forall|j: int|
                0 <= j < parts[k].len() ==> !is_ws(#[trigger] parts[k][j]),
    ensures
        spaced(join(parts, seq![' '])),
        parts.len() > 0 ==> join(parts, seq![' ']).len() > 0 && !is_ws(
            join(parts, seq![' ']).last(),
        ),
        parts.len() == 0 ==> join(parts, seq![' ']).len() == 0,
        (forall|k: int, j: int|
            0 <= k < parts.len() && 0 <= j < parts[k].len() ==> segment_char(
                #[trigger] parts[k][j],
            )) ==> forall|i: int|
            0 <= i < join(parts, seq![' ']).len() ==> segment_char(
                #[trigger] join(parts, seq![' '])[i],
            ),
    decreases parts.len(),
{
    let sep = seq![' '];
    if parts.len() == 0 {
    } else if parts.len() == 1 {
        let w = parts[0];
        assert(join(parts, sep) == w);
        assert forall|i: int| 0 <= i < w.len() && #[trigger] is_ws(w[i]) implies false by {
            assert(!is_ws(parts[0][i]));
        }
        assert(!is_ws(w.last())) by {
            assert(!is_ws(parts[0][w.len() - 1]));
        }
    } else {
        let v = parts.drop_last();
        let w = parts.last();
        assert forall|k: int| 0 <= k < v.len() implies (#[trigger] v[k]).len() > 0 && forall|
            j: int,
        | 0 <= j < v[k].len() ==> !is_ws(#[trigger] v[k][j]) by {
            assert(v[k] == parts[k]);
        }
        lemma_join_shape(v);
        let jv = join(v, sep);
        let j = join(parts, sep);
        assert(j == jv + sep + w);
        assert(w.len() > 0);
        assert forall|i: int| 0 <= i < w.len() implies !is_ws(#[trigger] w[i]) by {
            assert(!is_ws(parts[parts.len() - 1][i]));
        }
        assert(j.len() == jv.len() + 1 + w.len());
        assert forall|i: int| 0 <= i < j.len() && #[trigger] is_ws(j[i]) implies j[i] == ' ' && 0
            < i && !is_ws(j[i - 1]) && (i + 1 < j.len() ==> !is_ws(j[i + 1])) by {
            if i < jv.len() {
                assert(j[i] == jv[i]);
                assert(is_ws(jv[i]));
                if i + 1 < jv.len() {
                    assert(j[i + 1] == jv[i + 1]);
                } else {
                    assert(!is_ws(jv.last()));
                }
                assert(j[i - 1] == jv[i - 1]);
            } else if i == jv.len() {
                assert(j[i - 1] == jv.last());
                assert(j[i + 1] == w[0]);
            } else {
                assert(j[i] == w[i - jv.len() - 1]);
            }
        }
        assert(j.last() == w.last());
        if forall|k: int, jj: int|
            0 <= k < parts.len() && 0 <= jj < parts[k].len() ==> segment_char(
                #[trigger] parts[k][jj],
            ) {
            assert forall|k: int, jj: int|
                0 <= k < v.len() && 0 <= jj < v[k].len() implies segment_char(
                #[trigger] v[k][jj],
            ) by {
                assert(v[k] == parts[k]);
            }
            assert forall|i: int| 0 <= i < j.len() implies segment_char(#[trigger] j[i]) by {
                if i < jv.len() {
                    assert(j[i] == jv[i]);
                } else if i == jv.len() {
                } else {
                    assert(j[i] == parts[parts.len() - 1][i - jv.len() - 1]);
                }
            }
        }
    }
}

proof fn lemma_trim_end_dots_spaces_prefix(s: Seq<char>)
    ensures
        trim_end_dots_spaces(s).len() <= s.len(),
        trim_end_dots_spaces(s) == s.take(trim_end_dots_spaces(s).len() as int),
        trim_end_dots_spaces(s).len() > 0 ==> trim_end_dots_spaces(s).last() != '.'
            && trim_end_dots_spaces(s).last() != ' ',
    decreases s.len(),
{
    if s.len() > 0 && (s.last() == '.' || s.last() == ' ') {
        let p = s.drop_last();
        lemma_trim_end_dots_spaces_prefix(p);
        let t = trim_end_dots_spaces(p);
        assert(s.take(t.len() as int) =~= p.take(t.len() as int));
    } else {
        assert(s.take(s.len() as int) =~= s);
    }
}

/// Collapsing a normalized prefix gives it back, minus a trailing space.
proof fn lemma_collapse_prefix(s: Seq<char>, i: int)
    requires
        normalized(s),
        0 <= i <= s.len(),
    ensures
        (i == 0 || s[i - 1] != ' ') ==> collapse_whitespace(s.take(i)) == s.take(i),
        (i > 0 && s[i - 1] == ' ') ==> collapse_whitespace(s.take(i)) == s.take(i - 1),
    decreases i,
{
    let sep = seq![' '];
    if i == 0 {
        assert(s.take(0) =~= Seq::<char>::empty());
    } else {
        let p = s.take(i - 1);
        let c = s[i - 1];
        assert(s.take(i) =~= p.push(c));
        lemma_collapse_prefix(s, i - 1);
        lemma_words_shape(p);
        lemma_join_shape(words(p));
        if is_ws(c) {
            lemma_words_push_ws(p, c);
            assert(c == ' ' && i - 1 > 0 && !is_ws(s[i - 2]));
            assert(s.take(i - 1) == p);
        } else if i >= 2 && !is_ws(s[i - 2]) {
            assert(p.last() == s[i - 2]);
            lemma_words_push_extend(p, c);
            lemma_join_extend_last(words(p), c, sep);
            assert(s[i - 2] != ' ');
        } else {
            assert(p.len() == 0 || is_ws(p.last()));
            lemma_words_push_start(p, c);
            lemma_join_push(words(p), seq![c], sep);
            if i >= 2 {
                // the space before `c` follows a non-space character
                assert(s[i - 2] == ' ');
                assert(i - 2 > 0);
                assert(s.take(i - 2).len() > 0);
                assert(words(p).len() > 0);
                assert(collapse_whitespace(p) == s.take(i - 2));
                assert(s.take(i - 2) + sep + seq![c] =~= s.take(i));
            } else {
                assert(words(p).len() == 0) by {
                    assert(p =~= Seq::<char>::empty());
                }
                assert(seq![c] =~= s.take(i));
            }
        }
    }
}

proof fn lemma_collapse_normalized(s: Seq<char>)
    requires
        normalized(s),
    ensures
        collapse_whitespace(s) == s,
{
    lemma_collapse_prefix(s, s.len() as int);
    assert(s.take(s.len() as int) =~= s);
}

proof fn lemma_sanitize_shape(name: Seq<char>)
    ensures
        normalized(spec_sanitize(name)),
        forall|i: int|
            0 <= i < spec_sanitize(name).len() ==> segment_char(#[trigger] spec_sanitize(name)[i]),
        spec_sanitize(name).last() != '.',
{
    let r = replace_reserved(name);
    assert forall|m: int| 0 <= m < r.len() implies segment_char(#[trigger] r[m]) by {}
    lemma_words_shape(r);
    lemma_words_segment_chars(r);
    lemma_join_shape(words(r));
    let c = collapse_whitespace(r);
    lemma_trim_end_dots_spaces_prefix(c);
    let t = trim_end_dots_spaces(c);
    if t.len() == 0 {
        let u = unnamed();
        assert(spec_sanitize(name) == u);
        assert forall|i: int| 0 <= i < u.len() implies !is_ws(#[trigger] u[i]) && segment_char(
            u[i],
        ) by {}
    } else {
        assert forall|i: int| 0 <= i < t.len() implies segment_char(#[trigger] t[i]) by {
            assert(t[i] == c[i]);
        }
        assert forall|i: int| 0 <= i < t.len() && #[trigger] is_ws(t[i]) implies t[i] == ' ' && 0
            < i && !is_ws(t[i - 1]) && (i + 1 < t.len() ==> !is_ws(t[i + 1])) by {
            assert(t[i] == c[i]);
            assert(t[i - 1] == c[i - 1]);
            if i + 1 < t.len() {
                assert(t[i + 1] == c[i + 1]);
            }
        }
        assert(!is_ws(t.last())) by {
            assert(t.last() == c[t.len() - 1]);
            if is_ws(t.last()) {
                assert(c[t.len() - 1] == ' ');
            }
        }
    }
}

/// A sanitized name is a usable Linux path segment: it is never empty,
/// holds no `/` or NUL, has no leading or trailing whitespace, keeps inner
/// whitespace to single spaces, and does not end in `.` (so it is never
/// `.` or `..`).
pub proof fn law_sanitize_gives_safe_segment(name: Seq<char>)
    ensures
        spec_sanitize(name).len() > 0,
        forall|i: int|
            0 <= i < spec_sanitize(name).len() ==> segment_char(#[trigger] spec_sanitize(name)[i]),
        normalized(spec_sanitize(name)),
        spec_sanitize(name).last() != '.',
{
    lemma_sanitize_shape(name);
}

/// Sanitizing a sanitized name changes nothing.
pub proof fn law_sanitize_idempotent(name: Seq<char>)
    ensures
        spec_sanitize(spec_sanitize(name)) == spec_sanitize(name),
{
    let r = spec_sanitize(name);
    lemma_sanitize_shape(name);
    assert(replace_reserved(r) =~= r) by {
        assert forall|i: int| 0 <= i < r.len() implies #[trigger] replace_reserved(r)[i] == r[i] by {
            assert(segment_char(r[i]));
        }
    }
    lemma_collapse_normalized(r);
    assert(r.last() != ' ');
    assert(trim_end_dots_spaces(r) == r);
}

/// A name with no leading or trailing whitespace, single inner spaces and
/// no final `.` keeps its length and every character, except that each `/`
/// and NUL becomes `_`.
pub proof fn law_sanitize_replaces_reserved(name: Seq<char>)
    requires
        normalized(name),
        name.last() != '.',
    ensures
        spec_sanitize(name).len() == name.len(),
        forall|i: int|
            0 <= i < name.len() ==> #[trigger] spec_sanitize(name)[i] == if name[i] == '/' || name[i]
                == '\0' {
                '_'
            } else {
                name[i]
            },
{
    let r = replace_reserved(name);
    assert forall|i: int| 0 <= i < r.len() implies #[trigger] is_ws(r[i]) == is_ws(name[i]) by {
        assert(r[i] == if name[i] == '/' || name[i] == '\0' { '_' } else { name[i] });
    }
    assert(spaced(r)) by {
        assert forall|i: int| 0 <= i < r.len() && #[trigger] is_ws(r[i]) implies r[i] == ' ' && 0 < i
            && !is_ws(r[i - 1]) && (i + 1 < r.len() ==> !is_ws(r[i + 1])) by {
            assert(is_ws(name[i]));
            assert(is_ws(r[i - 1]) == is_ws(name[i - 1]));
            if i + 1 < r.len() {
                assert(is_ws(r[i + 1]) == is_ws(name[i + 1]));
            }
        }
    }
    assert(!is_ws(r.last())) by {
        assert(is_ws(r[r.len() - 1]) == is_ws(name[name.len() - 1]));
    }
    lemma_collapse_normalized(r);
    assert(is_ws(' '));
    assert(r.last() != ' ' && r.last() != '.');
    assert(trim_end_dots_spaces(r) == r);
}

/// A name that is already a safe, normalized segment (non-empty, no `/` or
/// NUL, no leading or trailing whitespace, inner whitespace single spaces,
/// not ending in `.`) comes back unchanged, whatever its length.
pub proof fn law_sanitize_keeps_safe_names(name: Seq<char>)
    requires
        normalized(name),
        forall|i: int| 0 <= i < name.len() ==> segment_char(#[trigger] name[i]),
        name.last() != '.',
    ensures
        spec_sanitize(name) == name,
{
    assert(replace_reserved(name) =~= name) by {
        assert forall|i: int| 0 <= i < name.len() implies #[trigger] replace_reserved(name)[i]
            == name[i] by {
            assert(segment_char(name[i]));
        }
    }
    lemma_collapse_normalized(name);
    assert(is_ws(' '));
    assert(name.last() != ' ');
    assert(trim_end_dots_spaces(name) == name);
}

} // verus!

verus! {

/// Whether `pat` occurs in `s`.
pub open spec fn contains_pattern(s: Seq<char>, pat: Seq<char>) -> bool {
    exists|i: int| 0 <= i && i + pat.len() <= s.len() && #[trigger] s.subrange(i, i + pat.len()) == pat
}

proof fn lemma_trim_start_suffix(s: Seq<char>) -> (a: int)
    ensures
        0 <= a <= s.len(),
        crate::text::trim_start(s) == s.subrange(a, s.len() as int),
        crate::text::trim_start(s).len() > 0 ==> !is_ws(crate::text::trim_start(s)[0]),
    decreases s.len(),
{
    if s.len() > 0 && is_ws(s[0]) {
        let a = lemma_trim_start_suffix(s.drop_first());
        assert(s.drop_first().subrange(a, s.len() - 1) =~= s.subrange(a + 1, s.len() as int));
        a + 1
    } else {
        assert(s.subrange(0, s.len() as int) =~= s);
        0
    }
}

proof fn lemma_trim_end_prefix(s: Seq<char>) -> (b: int)
    ensures
        0 <= b <= s.len(),
        crate::text::trim_end(s) == s.subrange(0, b),
        b > 0 ==> !is_ws(s[b - 1]),
    decreases s.len(),
{
    if s.len() > 0 && is_ws(s.last()) {
        let b = lemma_trim_end_prefix(s.drop_last());
        assert(s.drop_last().subrange(0, b) =~= s.subrange(0, b));
        b
    } else {
        assert(s.subrange(0, s.len() as int) =~= s);
        s.len() as int
    }
}

/// `trim(s)` is the slice `s[a..b]`, and it starts and ends with
/// non-whitespace when non-empty.
proof fn lemma_trim_slice(s: Seq<char>) -> (ab: (int, int))
    ensures
        0 <= ab.0 <= ab.1 <= s.len(),
        trim(s) == s.subrange(ab.0, ab.1),
        trim(s).len() > 0 ==> !is_ws(trim(s)[0]) && !is_ws(trim(s).last()),
{
    let b = lemma_trim_end_prefix(s);
    let e = s.subrange(0, b);
    let a = lemma_trim_start_suffix(e);
    assert(e.subrange(a, b) =~= s.subrange(a, b));
    if trim(s).len() > 0 {
        assert(trim(s).last() == s[b - 1]);
    }
    (a, b)
}

pub proof fn lemma_last_index_of(s: Seq<char>, c: char)
    ensures
        match last_index_of(s, c) {
            Some(i) => 0 <= i < s.len() && s[i] == c && forall|j: int| i < j < s.len() ==> #[trigger] s[j] != c,
            None => forall|j: int| 0 <= j < s.len() ==> #[trigger] s[j] != c,
        },
    decreases s.len(),
{
    if s.len() > 0 && s.last() != c {
        let p = s.drop_last();
        lemma_last_index_of(p, c);
        assert forall|j: int| 0 <= j < p.len() implies #[trigger] s[j] == p[j] by {}
    }
}

proof fn lemma_last_occurrence(s: Seq<char>, pat: Seq<char>)
    requires
        pat.len() > 0,
    ensures
        match last_occurrence(s, pat) {
            Some(k) => 0 <= k && k + pat.len() <= s.len() && s.subrange(k, k + pat.len()) == pat
                && forall|j: int|
                k < j && j + pat.len() <= s.len() ==> #[trigger] s.subrange(j, j + pat.len())
                    != pat,
            None => !contains_pattern(s, pat),
        },
    decreases s.len(),
{
    if s.len() == 0 || s.len() < pat.len() {
    } else if s.subrange(s.len() - pat.len(), s.len() as int) == pat {
    } else {
        let p = s.drop_last();
        lemma_last_occurrence(p, pat);
        assert forall|j: int| 0 <= j && j + pat.len() <= p.len() implies #[trigger] p.subrange(
            j,
            j + pat.len(),
        ) == s.subrange(j, j + pat.len()) by {
            assert(p.subrange(j, j + pat.len()) =~= s.subrange(j, j + pat.len()));
        }
        match last_occurrence(s, pat) {
            Some(k) => {
                assert forall|j: int| k < j && j + pat.len() <= s.len() implies #[trigger] s.subrange(
                    j,
                    j + pat.len(),
                ) != pat by {
                    if j + pat.len() <= p.len() {
                        assert(p.subrange(j, j + pat.len()) == s.subrange(j, j + pat.len()));
                    }
                }
                assert(p.subrange(k, k + pat.len()) == s.subrange(k, k + pat.len()));
            },
            None => {
                if contains_pattern(s, pat) {
                    let i = choose|i: int|
                        0 <= i && i + pat.len() <= s.len() && #[trigger] s.subrange(
                            i,
                            i + pat.len(),
                        ) == pat;
                    if i + pat.len() <= p.len() {
                        assert(p.subrange(i, i + pat.len()) == pat);
                    }
                }
            },
        }
    }
}

/// A title whose part after its last `:` (the whole title when it has
/// none) trims to `a + " by " + b`, with no ` by ` starting after the start
/// of that one and both `a` and `b` non-empty once trimmed, names the
/// publisher `b` and the bundle `a`, both trimmed, whatever characters
/// (spaces included) they hold.
pub proof fn law_title_split_at_last_by(head: Seq<char>, rest: Seq<char>, a: Seq<char>, b: Seq<char>)
    requires
        head.len() == 0 || head.last() == ':',
        !rest.contains(':'),
        trim(rest) == a + by_sep() + b,
        forall|j: int|
            a.len() < j && j + 4 <= trim(rest).len() ==> #[trigger] trim(rest).subrange(j, j + 4)
                != by_sep(),
        trim(a).len() > 0,
        trim(b).len() > 0,
    ensures
        spec_parse_bundle_title(head + rest) == (Some(trim(b)), trim(a)),
{
    let title = head + rest;
    lemma_last_index_of(title, ':');
    assert(title.skip(head.len() as int) =~= rest);
    match last_index_of(title, ':') {
        Some(i) => {
            if i >= head.len() {
                assert(title[i] == rest[i - head.len()]);
                assert(rest.contains(':'));
            }
            if i < head.len() - 1 {
                assert(title[head.len() - 1] == ':');
            }
            assert(i == head.len() - 1);
        },
        None => {
            if head.len() > 0 {
                assert(title[head.len() - 1] == ':');
            }
            assert(title =~= rest);
        },
    }
    let t = trim(rest);
    assert(title_tail(title) == t);
    let n = a.len() as int;
    assert(t.subrange(n, n + 4) =~= by_sep());
    lemma_last_occurrence(t, by_sep());
    match last_occurrence(t, by_sep()) {
        Some(k) => {
            if k < n {
                assert(t.subrange(n, n + 4) == by_sep());
            }
            assert(k == n);
            assert(t.take(k) =~= a);
            assert(t.skip(k + 4) =~= b);
        },
        None => {
            assert(contains_pattern(t, by_sep()));
        },
    }
}

/// A title whose part after its last `:` (the whole title when it has
/// none) trims to a non-empty text with no ` by ` in it names no publisher,
/// and that trimmed text is the bundle.
pub proof fn law_title_without_by_has_no_publisher(head: Seq<char>, rest: Seq<char>)
    requires
        head.len() == 0 || head.last() == ':',
        !rest.contains(':'),
        trim(rest).len() > 0,
        forall|j: int| 0 <= j && j + 4 <= trim(rest).len() ==> #[trigger] trim(rest).subrange(j, j + 4)
            != by_sep(),
    ensures
        spec_parse_bundle_title(head + rest) == (None::<Seq<char>>, trim(rest)),
{
    let title = head + rest;
    lemma_last_index_of(title, ':');
    assert(title.skip(head.len() as int) =~= rest);
    match last_index_of(title, ':') {
        Some(i) => {
            if i >= head.len() {
                assert(title[i] == rest[i - head.len()]);
                assert(rest.contains(':'));
            }
            if i < head.len() - 1 {
                assert(title[head.len() - 1] == ':');
            }
            assert(i == head.len() - 1);
        },
        None => {
            if head.len() > 0 {
                assert(title[head.len() - 1] == ':');
            }
            assert(title =~= rest);
        },
    }
    let t = trim(rest);
    assert(title_tail(title) == t);
    lemma_last_occurrence(t, by_sep());
    match last_occurrence(t, by_sep()) {
        Some(k) => {
            assert(t.subrange(k, k + 4) == by_sep());
        },
        None => {},
    }
}

/// The publisher and bundle that `parse_bundle_title` splits off are clean:
/// both are non-empty, neither starts or ends with whitespace, neither holds
/// a `:` (the split is at the last one), and the publisher holds no ` by `
/// (the split is at the last one).
pub proof fn law_title_split_parts_are_clean(title: Seq<char>)
    ensures
        spec_parse_bundle_title(title).0 matches Some(publisher) ==> {
            let bundle = spec_parse_bundle_title(title).1;
            &&& publisher.len() > 0 && !is_ws(publisher[0]) && !is_ws(publisher.last())
            &&& bundle.len() > 0 && !is_ws(bundle[0]) && !is_ws(bundle.last())
            &&& !publisher.contains(':') && !bundle.contains(':')
            &&& !contains_pattern(publisher, by_sep())
        },
{
    let t = title_tail(title);
    lemma_last_index_of(title, ':');
    // the tail is a slice of the title past its last ':'
    let (t0, t1) = match last_index_of(title, ':') {
        Some(i) => {
            let ab = lemma_trim_slice(title.skip(i + 1));
            assert(title.skip(i + 1).subrange(ab.0, ab.1) =~= title.subrange(
                i + 1 + ab.0,
                i + 1 + ab.1,
            ));
            (i + 1 + ab.0, i + 1 + ab.1)
        },
        None => {
            let ab = lemma_trim_slice(title);
            (ab.0, ab.1)
        },
    };
    assert(t == title.subrange(t0, t1));
    assert forall|j: int| 0 <= j < t.len() implies #[trigger] t[j] != ':' by {
        assert(t[j] == title[t0 + j]);
    }
    lemma_last_occurrence(t, by_sep());
    if let Some(k) = last_occurrence(t, by_sep()) {
        let bundle = trim(t.take(k));
        let publisher = trim(t.skip(k + 4));
        if bundle.len() > 0 && publisher.len() > 0 {
            let (b0, b1) = lemma_trim_slice(t.take(k));
            let (p0, p1) = lemma_trim_slice(t.skip(k + 4));
            assert(bundle == t.subrange(b0, b1)) by {
                assert(t.take(k).subrange(b0, b1) =~= t.subrange(b0, b1));
            }
            assert(publisher == t.subrange(k + 4 + p0, k + 4 + p1)) by {
                assert(t.skip(k + 4).subrange(p0, p1) =~= t.subrange(k + 4 + p0, k + 4 + p1));
            }
            assert forall|j: int| 0 <= j < bundle.len() implies #[trigger] bundle[j] != ':' by {
                assert(bundle[j] == t[b0 + j]);
            }
            assert forall|j: int| 0 <= j < publisher.len() implies #[trigger] publisher[j]
                != ':' by {
                assert(publisher[j] == t[k + 4 + p0 + j]);
            }
            if contains_pattern(publisher, by_sep()) {
                let q = choose|q: int|
                    0 <= q && q + 4 <= publisher.len() && #[trigger] publisher.subrange(q, q + 4)
                        == by_sep();
                assert(publisher.subrange(q, q + 4) =~= t.subrange(
                    k + 4 + p0 + q,
                    k + 4 + p0 + q + 4,
                ));
                assert(t.subrange(k + 4 + p0 + q, k + 4 + p0 + q + 4) != by_sep());
            }
        }
    }
}

} // verus!
