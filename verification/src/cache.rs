//! Where parsed order metadata is cached on disk, keyed by gamekey.
//!
//! Order composition (titles, sizes, MD5s, formats) never changes once a
//! bundle is purchased, so caching it lets a re-run that finds every file
//! already on disk skip the order-detail network request entirely.
use vstd::prelude::*;

use crate::api::{
    spec_build_tasks, task_for, Book, BookView, DownloadFile, DownloadFileView, Order, OrderView,
    books_view, files_view,
};
use crate::downloader::{spec_present, CorrectedMetadata};
use crate::text::opt_view;
use crate::naming::{sanitize, spec_sanitize};
use crate::paths::{join_path, path_join};

verus! {

/// The cache entry for `key` in `dir`: `dir/<sanitized key>.json`.
pub open spec fn spec_entry_path(dir: Seq<char>, key: Seq<char>) -> Seq<char> {
    path_join(dir, spec_sanitize(key) + ".json"@)
}

/// The path of the cache entry for `key` in `dir`.
pub fn entry_path(dir: &str, key: &str) -> (res: String)
    ensures
        res@ == spec_entry_path(dir@, key@),
{
    let mut name = sanitize(key);
    name.append(".json");
    join_path(dir, name.as_str())
}

/// The cache directory given `HBSYNC_CACHE_DIR`, `XDG_CACHE_HOME` and
/// `HOME`: the first if set, else `hbsync/orders` under the second, else
/// under `.cache` in the third, else none.
pub open spec fn spec_cache_dir(
    hbsync_cache_dir: Option<Seq<char>>,
    xdg_cache_home: Option<Seq<char>>,
    home: Option<Seq<char>>,
) -> Option<Seq<char>> {
    match hbsync_cache_dir {
        Some(d) => Some(d),
        None => {
            let base = match xdg_cache_home {
                Some(x) => Some(x),
                None => match home {
                    Some(h) => Some(path_join(h, ".cache"@)),
                    None => None,
                },
            };
            match base {
                Some(b) => Some(path_join(path_join(b, "hbsync"@), "orders"@)),
                None => None,
            }
        },
    }
}

pub open spec fn str_opt_view(s: Option<&str>) -> Option<Seq<char>> {
    match s {
        Some(t) => Some(t@),
        None => None,
    }
}

/// Resolve the cache directory from the values of `HBSYNC_CACHE_DIR` (used
/// by tests to isolate runs), `XDG_CACHE_HOME` and `HOME`. `None` means no
/// location can be determined and caching is skipped.
pub fn cache_dir_from(
    hbsync_cache_dir: Option<&str>,
    xdg_cache_home: Option<&str>,
    home: Option<&str>,
) -> (res: Option<String>)
    ensures
        crate::text::opt_view(res) == spec_cache_dir(
            str_opt_view(hbsync_cache_dir),
            str_opt_view(xdg_cache_home),
            str_opt_view(home),
        ),
{
    if let Some(d) = hbsync_cache_dir {
        return Some(String::from_str(d));
    }
    let base = match xdg_cache_home {
        Some(x) => String::from_str(x),
        None => match home {
            Some(h) => join_path(h, ".cache"),
            None => {
                return None;
            },
        },
    };
    let with_app = join_path(base.as_str(), "hbsync");
    Some(join_path(with_app.as_str(), "orders"))
}

} // verus!

verus! {

/// A file with the size and MD5 observed for `url`, when it is that file.
pub open spec fn corrected_file(
    f: DownloadFileView,
    url: Seq<char>,
    size: u64,
    md5: Seq<char>,
) -> DownloadFileView {
    if f.url == url {
        DownloadFileView { format: f.format, url: f.url, size: Some(size), md5: Some(md5) }
    } else {
        f
    }
}

pub open spec fn corrected_book(b: BookView, url: Seq<char>, size: u64, md5: Seq<char>) -> BookView {
    BookView {
        title: b.title,
        publisher: b.publisher,
        files: b.files.map_values(|f: DownloadFileView| corrected_file(f, url, size, md5)),
    }
}

/// The order with every file downloaded from `url` carrying the observed
/// size and MD5 instead of what the order API reported.
pub open spec fn spec_corrected_order(o: OrderView, url: Seq<char>, size: u64, md5: Seq<char>) -> OrderView {
    OrderView {
        key: o.key,
        title: o.title,
        books: o.books.map_values(|b: BookView| corrected_book(b, url, size, md5)),
    }
}

fn copy_opt(s: &Option<String>) -> (res: Option<String>)
    ensures
        opt_view(res) == opt_view(*s),
{
    match s {
        Some(t) => Some(String::from_str(t.as_str())),
        None => None,
    }
}

fn corrected_file_exec(f: &DownloadFile, url: &str, corrected: &CorrectedMetadata) -> (res: DownloadFile)
    ensures
        res@ == corrected_file(f@, url@, corrected.size, corrected.md5@),
{
    let same = crate::text::str_eq(f.url.as_str(), url);
    DownloadFile {
        format: String::from_str(f.format.as_str()),
        url: String::from_str(f.url.as_str()),
        size: if same {
            Some(corrected.size)
        } else {
            f.size
        },
        md5: if same {
            Some(String::from_str(corrected.md5.as_str()))
        } else {
            copy_opt(&f.md5)
        },
    }
}

fn corrected_book_exec(b: &Book, url: &str, corrected: &CorrectedMetadata) -> (res: Book)
    ensures
        res@ == corrected_book(b@, url@, corrected.size, corrected.md5@),
{
    let ghost cf = |f: DownloadFileView| corrected_file(f, url@, corrected.size, corrected.md5@);
    let mut files: Vec<DownloadFile> = Vec::new();
    let mut j: usize = 0;
    while j < b.files.len()
        invariant
            j <= b.files.len(),
            cf == (|f: DownloadFileView| corrected_file(f, url@, corrected.size, corrected.md5@)),
            files_view(files@) == files_view(b.files@).take(j as int).map_values(cf),
        decreases b.files.len() - j,
    {
        let f = corrected_file_exec(&b.files[j], url, corrected);
        let ghost before = files@;
        files.push(f);
        assert(files_view(files@) =~= files_view(before).push(f@));
        assert(files_view(b.files@).take(j + 1).map_values(cf) =~= files_view(b.files@).take(
            j as int,
        ).map_values(cf).push(cf(b.files@[j as int]@)));
        j = j + 1;
    }
    assert(files_view(b.files@).take(b.files.len() as int) =~= files_view(b.files@));
    Book {
        title: String::from_str(b.title.as_str()),
        publisher: copy_opt(&b.publisher),
        files,
    }
}

/// The order with the size and MD5 observed for the download at `url`, so
/// that a cache entry written from it recognizes the downloaded file as
/// already present on the next run.
pub fn with_corrected_metadata(order: &Order, url: &str, corrected: &CorrectedMetadata) -> (res:
    Order)
    ensures
        res@ == spec_corrected_order(order@, url@, corrected.size, corrected.md5@),
{
    let ghost cb = |b: BookView| corrected_book(b, url@, corrected.size, corrected.md5@);
    let mut books: Vec<Book> = Vec::new();
    let mut i: usize = 0;
    while i < order.books.len()
        invariant
            i <= order.books.len(),
            cb == (|b: BookView| corrected_book(b, url@, corrected.size, corrected.md5@)),
            books_view(books@) == books_view(order.books@).take(i as int).map_values(cb),
        decreases order.books.len() - i,
    {
        let b = corrected_book_exec(&order.books[i], url, corrected);
        let ghost before = books@;
        books.push(b);
        assert(books_view(books@) =~= books_view(before).push(b@));
        assert(books_view(order.books@).take(i + 1).map_values(cb) =~= books_view(
            order.books@,
        ).take(i as int).map_values(cb).push(cb(order.books@[i as int]@)));
        i = i + 1;
    }
    assert(books_view(order.books@).take(order.books.len() as int) =~= books_view(order.books@));
    Order { key: String::from_str(order.key.as_str()), title: String::from_str(order.title.as_str()), books }
}

/// Once an order is corrected with what a download of `url` actually
/// delivered, every task built from it for that URL expects exactly the
/// delivered size and MD5, so the delivered file counts as present and a
/// later run finds nothing left to fetch for it.
pub proof fn law_corrected_download_counts_as_present(
    order: OrderView,
    url: Seq<char>,
    size: u64,
    md5: Seq<char>,
    output: Seq<char>,
    formats: Option<Seq<Seq<char>>>,
)
    ensures
        forall|k: int|
            0 <= k < spec_build_tasks(spec_corrected_order(order, url, size, md5), output, formats).len()
                && (#[trigger] spec_build_tasks(
                spec_corrected_order(order, url, size, md5),
                output,
                formats,
            )[k]).url == url ==> {
                let t = spec_build_tasks(spec_corrected_order(order, url, size, md5), output, formats)[k];
                &&& t.size == Some(size)
                &&& t.md5 == Some(md5)
                &&& spec_present(t, Some(size))
            },
{
    let c = spec_corrected_order(order, url, size, md5);
    assert forall|k: int|
        0 <= k < spec_build_tasks(c, output, formats).len() && (#[trigger] spec_build_tasks(
            c,
            output,
            formats,
        )[k]).url == url implies {
        let t = spec_build_tasks(c, output, formats)[k];
        &&& t.size == Some(size)
        &&& t.md5 == Some(md5)
        &&& spec_present(t, Some(size))
    } by {
        crate::api::lemma_task_origin(c, output, formats, k);
        let (i, j) = choose|i: int, j: int|
            0 <= i < c.books.len() && 0 <= j < c.books[i].files.len() && (
            #[trigger] spec_build_tasks(c, output, formats)[k]) == task_for(
                output,
                crate::naming::spec_parse_bundle_title(c.title).0,
                crate::naming::spec_parse_bundle_title(c.title).1,
                c.books[i],
                c.books[i].files[j],
            );
        let f = c.books[i].files[j];
        assert(c.books[i] == corrected_book(order.books[i], url, size, md5));
        assert(f == corrected_file(order.books[i].files[j], url, size, md5));
    }
}

} // verus!

verus! {

/// A cache entry lies directly in the cache directory: its path is the
/// directory followed by a file name that is a single path segment (no `/`
/// or NUL, neither `.` nor `..`), so no key reaches outside the directory.
pub proof fn law_entry_name_stays_in_directory(dir: Seq<char>, key: Seq<char>)
    ensures
        spec_entry_path(dir, key) == dir + crate::paths::separator_after(dir) + (spec_sanitize(
            key,
        ) + ".json"@),
        forall|i: int|
            0 <= i < (spec_sanitize(key) + ".json"@).len() ==> crate::naming::segment_char(
                #[trigger] (spec_sanitize(key) + ".json"@)[i],
            ),
        spec_sanitize(key) + ".json"@ != "."@,
        spec_sanitize(key) + ".json"@ != ".."@,
{
    crate::naming::law_sanitize_gives_safe_segment(key);
    reveal_strlit(".json");
    reveal_strlit(".");
    reveal_strlit("..");
    let n = spec_sanitize(key) + ".json"@;
    assert forall|i: int| 0 <= i < n.len() implies crate::naming::segment_char(#[trigger] n[i]) by {
        if i >= spec_sanitize(key).len() {
            assert(n[i] == ".json"@[i - spec_sanitize(key).len()]);
        }
    }
    assert(n.len() >= 6);
    assert(crate::naming::segment_char(n[0]));
}

} // verus!

verus! {

/// Whether order `o` is written back to the cache after a run: it owns (by `owners[i]`, the order of result `i`) a result that
/// came with corrected metadata (`corrected[i]`).
pub open spec fn spec_orders_to_rewrite(
    owners: Seq<usize>,
    corrected: Seq<bool>,
    o: int,
) -> bool {
    exists|i: int|
        0 <= i < owners.len() && i < corrected.len() && #[trigger] owners[i] == o && corrected[i]
}

/// Marks the orders whose cache entries need the corrected metadata.
pub fn orders_to_rewrite(order_count: usize, owners: &Vec<usize>, corrected: &Vec<bool>) -> (res:
    Vec<bool>)
    ensures
        res.len() == order_count,
        forall|o: int|
            0 <= o < order_count ==> #[trigger] res@[o] == spec_orders_to_rewrite(owners@, corrected@, o),
{
    let mut res: Vec<bool> = Vec::new();
    let mut o: usize = 0;
    while o < order_count
        invariant
            o <= order_count,
            res.len() == o,
            forall|x: int| 0 <= x < o ==> !#[trigger] res@[x],
        decreases order_count - o,
    {
        res.push(false);
        o = o + 1;
    }
    let mut i: usize = 0;
    while i < owners.len() && i < corrected.len()
        invariant
            i <= owners.len(),
            res.len() == order_count,
            forall|x: int|
                0 <= x < order_count ==> #[trigger] res@[x] == exists|j: int|
                    0 <= j < i && j < owners.len() && j < corrected.len() && owners@[j] == x
                        && corrected@[j],
        decreases owners.len() - i,
    {
        let ghost before = res@;
        if corrected[i] && owners[i] < order_count {
            res.set(owners[i], true);
        }
        proof {
            assert forall|x: int| 0 <= x < order_count implies #[trigger] res@[x] == exists|j: int|
                0 <= j < i + 1 && j < owners.len() && j < corrected.len() && owners@[j] == x
                    && corrected@[j] by {
                if owners@[i as int] == x && corrected@[i as int] {
                    assert(res@[x]);
                } else {
                    assert(res@[x] == before[x]);
                    if exists|j: int|
                        0 <= j < i + 1 && j < owners.len() && j < corrected.len() && owners@[j]
                            == x && corrected@[j] {
                        let j = choose|j: int|
                            0 <= j < i + 1 && j < owners.len() && j < corrected.len() && owners@[j]
                                == x && corrected@[j];
                        assert(j < i);
                    }
                }
            }
        }
        i = i + 1;
    }
    proof {
        assert forall|x: int| 0 <= x < order_count implies #[trigger] res@[x]
            == spec_orders_to_rewrite(owners@, corrected@, x) by {
            if res@[x] {
                let j = choose|j: int|
                    0 <= j < i && j < owners.len() && j < corrected.len() && owners@[j] == x
                        && corrected@[j];
                assert(owners@[j] == x);
            }
            if spec_orders_to_rewrite(owners@, corrected@, x) {
                let j = choose|j: int|
                    0 <= j < owners.len() && j < corrected.len() && #[trigger] owners@[j] == x
                        && corrected@[j];
                assert(j < i);
            }
        }
    }
    res
}

} // verus!
