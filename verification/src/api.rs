//! Humble Bundle orders: the order JSON walk and the order-to-download-task
//! mapping.
use vstd::prelude::*;

use crate::auth::AuthError;
use crate::downloader::{DownloadTask, DownloadTaskView};
use crate::json::{get_array, get_nested_str, get_str, get_u64, JsonValue};
use crate::naming::{parse_bundle_title, sanitize, spec_parse_bundle_title, spec_sanitize};
use crate::paths::{join_path, path_join, separator_after};
use crate::text::{chars_of, opt_view, str_eq};
use crate::urls::{filename_from_url, spec_filename_from_url};

verus! {

/// The message for a session the API refuses.
pub const SESSION_REJECTED_MSG: &'static str =
    "Humble Bundle rejected the session cookie. Log into humblebundle.com in Firefox and re-run, or pass --cookie.";

/// An API request the server answered with an error status: an unknown
/// resource, or any other non-success status, with the URL asked for.
#[derive(Debug)]
pub enum ApiError {
    NotFound(String),
    Status { status: u16, url: String },
}

/// Declares `reqwest::Error` so that a failed request can be carried in
/// `HumbleClientError`; nothing in the library looks inside it.
#[verifier::external_type_specification]
#[verifier::external_body]
pub struct ExReqwestError(reqwest::Error);

/// Why an API request failed: the session was refused, the resource is
/// unknown, or the transfer itself failed.
#[derive(Debug)]
pub enum HumbleClientError {
    Auth(AuthError),
    Api(ApiError),
    Network(reqwest::Error),
}

/// What an API response status means for the request to `url`: 401 and 403
/// reject the session, 404 names an unknown resource, any other status
/// outside 200..=299 is a generic API error, and a success goes on.
pub fn check_status(status: u16, url: &str) -> (res: Result<(), HumbleClientError>)
    ensures
        (status == 401 || status == 403) <==> (res matches Err(HumbleClientError::Auth(e)) && e.0@
            == SESSION_REJECTED_MSG@),
        status == 404 <==> (res matches Err(HumbleClientError::Api(ApiError::NotFound(u))) && u@
            == url@),
        (status != 401 && status != 403 && status != 404 && !(200 <= status <= 299)) <==> (
        res matches Err(HumbleClientError::Api(ApiError::Status { status: s, url: u })) && s
            == status && u@ == url@),
        (200 <= status <= 299) <==> res is Ok,
{
    if status == 401 || status == 403 {
        Err(HumbleClientError::Auth(AuthError(String::from_str(SESSION_REJECTED_MSG))))
    } else if status == 404 {
        Err(HumbleClientError::Api(ApiError::NotFound(String::from_str(url))))
    } else if 200 <= status && status <= 299 {
        Ok(())
    } else {
        Err(HumbleClientError::Api(ApiError::Status { status, url: String::from_str(url) }))
    }
}

/// A purchase key whose order cannot be fetched because the API refused
/// that key is reported and counted, and the run goes on; a refused
/// session or a failed transfer stops the run.
pub fn key_failure_is_fatal(err: &HumbleClientError) -> (res: bool)
    ensures
        res == !(*err is Api),
{
    match err {
        HumbleClientError::Api(_) => false,
        _ => true,
    }
}

#[derive(Debug, Clone)]
pub struct DownloadFile {
    pub format: String,
    pub url: String,
    pub size: Option<u64>,
    pub md5: Option<String>,
}

#[derive(Debug, Clone)]
pub struct Book {
    pub title: String,
    pub publisher: Option<String>,
    pub files: Vec<DownloadFile>,
}

#[derive(Debug, Clone)]
pub struct Order {
    pub key: String,
    pub title: String,
    pub books: Vec<Book>,
}

pub struct DownloadFileView {
    pub format: Seq<char>,
    pub url: Seq<char>,
    pub size: Option<u64>,
    pub md5: Option<Seq<char>>,
}

pub struct BookView {
    pub title: Seq<char>,
    pub publisher: Option<Seq<char>>,
    pub files: Seq<DownloadFileView>,
}

pub struct OrderView {
    pub key: Seq<char>,
    pub title: Seq<char>,
    pub books: Seq<BookView>,
}

impl View for DownloadFile {
    type V = DownloadFileView;

    open spec fn view(&self) -> DownloadFileView {
        DownloadFileView {
            format: self.format@,
            url: self.url@,
            size: self.size,
            md5: opt_view(self.md5),
        }
    }
}

pub open spec fn files_view(files: Seq<DownloadFile>) -> Seq<DownloadFileView> {
    files.map_values(|f: DownloadFile| f@)
}

impl View for Book {
    type V = BookView;

    open spec fn view(&self) -> BookView {
        BookView { title: self.title@, publisher: opt_view(self.publisher), files: files_view(self.files@) }
    }
}

pub open spec fn books_view(books: Seq<Book>) -> Seq<BookView> {
    books.map_values(|b: Book| b@)
}

impl View for Order {
    type V = OrderView;

    open spec fn view(&self) -> OrderView {
        OrderView { key: self.key@, title: self.title@, books: books_view(self.books@) }
    }
}

/// What `str::to_lowercase` makes of a string.
pub uninterp spec fn str_lowercase(s: Seq<char>) -> Seq<char>;

/// Calls `str::to_lowercase`. The contract only names the outcome
/// (`str_lowercase`, a function of the string alone); the Unicode case
/// mapping is not restated.
#[verifier::external_body]
pub(crate) fn to_lowercase(s: &str) -> (res: String)
    ensures
        res@ == str_lowercase(s@),
{
    s.to_lowercase()
}

/// `s` without its leading `.` characters.
pub open spec fn trim_leading_dots(s: Seq<char>) -> Seq<char>
    decreases s.len(),
{
    if s.len() > 0 && s[0] == '.' {
        trim_leading_dots(s.drop_first())
    } else {
        s
    }
}

/// A file format from a lowercased download name: the name without its
/// leading dots.
pub fn strip_leading_dots(lowered: &str) -> (res: String)
    ensures
        res@ == trim_leading_dots(lowered@),
{
    let chars = chars_of(lowered);
    let mut i: usize = 0;
    assert(chars@.subrange(0, chars.len() as int) =~= chars@);
    while i < chars.len() && chars[i] == '.'
        invariant
            i <= chars.len(),
            trim_leading_dots(chars@) == trim_leading_dots(
                chars@.subrange(i as int, chars.len() as int),
            ),
        decreases chars.len() - i,
    {
        assert(chars@.subrange(i as int, chars.len() as int).drop_first() =~= chars@.subrange(
            i + 1,
            chars.len() as int,
        ));
        i = i + 1;
    }
    crate::text::string_of(&chars, i, chars.len())
}

/// The format of a download named `name`: lowercased, leading dots dropped.
pub open spec fn format_of(name: Seq<char>) -> Seq<char> {
    trim_leading_dots(str_lowercase(name))
}

/// The file an entry of a download's `download_struct` describes, when it
/// has both a web URL and a name.
pub open spec fn spec_file_of(st: JsonValue) -> Option<DownloadFileView> {
    match (get_nested_str(st, "url"@, "web"@), get_str(st, "name"@)) {
        (Some(web), Some(name)) => Some(
            DownloadFileView {
                format: format_of(name),
                url: web,
                size: get_u64(st, "file_size"@),
                md5: get_str(st, "md5"@),
            },
        ),
        _ => None,
    }
}

/// The files of one download: its described files when its platform is
/// `ebook`, none otherwise.
pub open spec fn spec_download_files(download: JsonValue) -> Seq<DownloadFileView> {
    if get_str(download, "platform"@) == Some("ebook"@) {
        get_array(download, "download_struct"@).filter_map(|st: JsonValue| spec_file_of(st))
    } else {
        Seq::empty()
    }
}

/// The ebook files of a subproduct, download by download.
pub open spec fn spec_subproduct_files(sub: JsonValue) -> Seq<DownloadFileView> {
    get_array(sub, "downloads"@).map_values(|d: JsonValue| spec_download_files(d)).flatten()
}

/// The book a subproduct describes, when it has ebook files.
pub open spec fn spec_book_of(sub: JsonValue) -> Option<BookView> {
    let files = spec_subproduct_files(sub);
    if files.len() > 0 {
        Some(
            BookView {
                title: match get_str(sub, "human_name"@) {
                    Some(t) => t,
                    None => "Unknown"@,
                },
                publisher: get_nested_str(sub, "payee"@, "human_name"@),
                files,
            },
        )
    } else {
        None
    }
}

/// The order an order-API document describes.
pub open spec fn spec_parse_order(data: JsonValue) -> OrderView {
    OrderView {
        key: match get_str(data, "gamekey"@) {
            Some(k) => k,
            None => Seq::empty(),
        },
        title: match get_nested_str(data, "product"@, "human_name"@) {
            Some(t) => t,
            None => Seq::empty(),
        },
        books: get_array(data, "subproducts"@).filter_map(|sub: JsonValue| spec_book_of(sub)),
    }
}

/// Owned copy of an optional string.
fn owned(s: Option<&str>) -> (res: Option<String>)
    ensures
        opt_view(res) == match s {
            Some(t) => Some(t@),
            None => None,
        },
{
    match s {
        Some(t) => Some(String::from_str(t)),
        None => None,
    }
}

/// The string at member `key`.
fn str_member<'a>(v: &'a JsonValue, key: &str) -> (res: Option<&'a str>)
    ensures
        match res {
            Some(s) => get_str(*v, key@) == Some(s@),
            None => get_str(*v, key@) is None,
        },
{
    match v.get(key) {
        Some(x) => x.as_str(),
        None => None,
    }
}

/// The string at member `inner` of member `outer`.
fn nested_str_member<'a>(v: &'a JsonValue, outer: &str, inner: &str) -> (res: Option<&'a str>)
    ensures
        match res {
            Some(s) => get_nested_str(*v, outer@, inner@) == Some(s@),
            None => get_nested_str(*v, outer@, inner@) is None,
        },
{
    match v.get(outer) {
        Some(x) => str_member(x, inner),
        None => None,
    }
}

/// The array at member `key`.
fn array_member<'a>(v: &'a JsonValue, key: &str) -> (res: Option<&'a Vec<JsonValue>>)
    ensures
        match res {
            Some(a) => get_array(*v, key@) == a@,
            None => get_array(*v, key@) == Seq::<JsonValue>::empty(),
        },
{
    match v.get(key) {
        Some(x) => x.as_array(),
        None => None,
    }
}

/// The unsigned integer at member `key`.
fn u64_member(v: &JsonValue, key: &str) -> (res: Option<u64>)
    ensures
        res == get_u64(*v, key@),
{
    match v.get(key) {
        Some(x) => x.as_u64(),
        None => None,
    }
}

fn file_of(st: &JsonValue) -> (res: Option<DownloadFile>)
    ensures
        match res {
            Some(f) => spec_file_of(*st) == Some(f@),
            None => spec_file_of(*st) is None,
        },
{
    let web = nested_str_member(st, "url", "web");
    let name = str_member(st, "name");
    match (web, name) {
        (Some(web), Some(name)) => {
            let lowered = to_lowercase(name);
            Some(
                DownloadFile {
                    format: strip_leading_dots(lowered.as_str()),
                    url: String::from_str(web),
                    size: u64_member(st, "file_size"),
                    md5: owned(str_member(st, "md5")),
                },
            )
        },
        _ => None,
    }
}

/// Appends the ebook files of `download` to `files`.
fn push_download_files(download: &JsonValue, files: &mut Vec<DownloadFile>)
    ensures
        files_view(final(files)@) == files_view(old(files)@) + spec_download_files(*download),
{
    let ghost start = files_view(files@);
    let platform = str_member(download, "platform");
    let is_ebook = match platform {
        Some(p) => str_eq(p, "ebook"),
        None => false,
    };
    if !is_ebook {
        assert(files_view(files@) =~= start + Seq::<DownloadFileView>::empty());
        return ;
    }
    let structs = array_member(download, "download_struct");
    match structs {
        Some(structs) => {
            let ghost f = |st: JsonValue| spec_file_of(st);
            let mut i: usize = 0;
            assert(structs@.take(0).filter_map(f) =~= Seq::<DownloadFileView>::empty());
            assert(files_view(files@) =~= start + structs@.take(0).filter_map(f));
            while i < structs.len()
                invariant
                    i <= structs.len(),
                    f == (|st: JsonValue| spec_file_of(st)),
                    files_view(files@) == start + structs@.take(i as int).filter_map(f),
                decreases structs.len() - i,
            {
                proof {
                    structs@.lemma_filter_map_take_succ(f, i as int);
                }
                let ghost before = files@;
                let ghost prev = structs@.take(i as int).filter_map(f);
                let ghost st = structs@[i as int];
                assert(f(st) == spec_file_of(st));
                match file_of(&structs[i]) {
                    Some(file) => {
                        files.push(file);
                        assert(files_view(files@) =~= files_view(before).push(file@));
                        assert(structs@.take(i + 1).filter_map(f) =~= prev + seq![file@]);
                        assert(files_view(files@) =~= start + (prev + seq![file@]));
                    },
                    None => {
                        assert(structs@.take(i + 1).filter_map(f) =~= prev + Seq::<DownloadFileView>::empty());
                        assert(files@ == before);
                    },
                }
                i = i + 1;
            }
            assert(structs@.take(structs.len() as int) =~= structs@);
        },
        None => {
            assert(files_view(files@) =~= start + Seq::<DownloadFileView>::empty());
        },
    }
}

/// The ebook files of a subproduct.
fn subproduct_files(sub: &JsonValue) -> (res: Vec<DownloadFile>)
    ensures
        files_view(res@) == spec_subproduct_files(*sub),
{
    let mut files: Vec<DownloadFile> = Vec::new();
    let ghost df = |d: JsonValue| spec_download_files(d);
    match array_member(sub, "downloads") {
        Some(downloads) => {
            let mut i: usize = 0;
            assert(downloads@.take(0).map_values(df).flatten() =~= Seq::<
                DownloadFileView,
            >::empty());
            assert(files_view(files@) =~= Seq::<DownloadFileView>::empty());
            while i < downloads.len()
                invariant
                    i <= downloads.len(),
                    df == (|d: JsonValue| spec_download_files(d)),
                    files_view(files@) == downloads@.take(i as int).map_values(df).flatten(),
                decreases downloads.len() - i,
            {
                let ghost before = files_view(files@);
                push_download_files(&downloads[i], &mut files);
                proof {
                    assert(df(downloads@[i as int]) == spec_download_files(downloads@[i as int]));
                    assert(downloads@.take(i + 1).map_values(df) =~= downloads@.take(
                        i as int,
                    ).map_values(df).push(df(downloads@[i as int])));
                    downloads@.take(i as int).map_values(df).lemma_flatten_push(
                        df(downloads@[i as int]),
                    );
                    assert(files_view(files@) == downloads@.take(i + 1).map_values(df).flatten());
                }
                i = i + 1;
            }
            assert(downloads@.take(downloads.len() as int) =~= downloads@);
        },
        None => {
            assert(files_view(files@) =~= Seq::<DownloadFileView>::empty());
            assert(Seq::<JsonValue>::empty().map_values(df) =~= Seq::<Seq<DownloadFileView>>::empty());
        },
    }
    files
}

fn book_of(sub: &JsonValue) -> (res: Option<Book>)
    ensures
        match res {
            Some(b) => spec_book_of(*sub) == Some(b@),
            None => spec_book_of(*sub) is None,
        },
{
    let files = subproduct_files(sub);
    if files.len() == 0 {
        return None;
    }
    let publisher = owned(nested_str_member(sub, "payee", "human_name"));
    let title = match str_member(sub, "human_name") {
        Some(t) => String::from_str(t),
        None => String::from_str("Unknown"),
    };
    Some(Book { title, publisher, files })
}

/// The order an order-API document describes: its key and title, and the
/// subproducts that offer ebook files, in document order, each with its
/// ebook files.
pub fn parse_order(data: &JsonValue) -> (res: Order)
    ensures
        res@ == spec_parse_order(*data),
{
    let mut books: Vec<Book> = Vec::new();
    let ghost f = |sub: JsonValue| spec_book_of(sub);
    match array_member(data, "subproducts") {
        Some(subs) => {
            let mut i: usize = 0;
            assert(subs@.take(0).filter_map(f) =~= Seq::<BookView>::empty());
            assert(books_view(books@) =~= Seq::<BookView>::empty());
            while i < subs.len()
                invariant
                    i <= subs.len(),
                    f == (|sub: JsonValue| spec_book_of(sub)),
                    books_view(books@) == subs@.take(i as int).filter_map(f),
                decreases subs.len() - i,
            {
                proof {
                    subs@.lemma_filter_map_take_succ(f, i as int);
                }
                let ghost before = books@;
                let ghost prev = subs@.take(i as int).filter_map(f);
                let ghost sub = subs@[i as int];
                assert(f(sub) == spec_book_of(sub));
                match book_of(&subs[i]) {
                    Some(book) => {
                        books.push(book);
                        assert(books_view(books@) =~= books_view(before).push(book@));
                        assert(subs@.take(i + 1).filter_map(f) =~= prev + seq![book@]);
                    },
                    None => {
                        assert(subs@.take(i + 1).filter_map(f) =~= prev + Seq::<BookView>::empty());
                        assert(books@ == before);
                    },
                }
                i = i + 1;
            }
            assert(subs@.take(subs.len() as int) =~= subs@);
        },
        None => {
            assert(books_view(books@) =~= Seq::<BookView>::empty());
        },
    }
    let key = match str_member(data, "gamekey") {
        Some(k) => String::from_str(k),
        None => String::new(),
    };
    let title = match nested_str_member(data, "product", "human_name") {
        Some(t) => String::from_str(t),
        None => String::new(),
    };
    Order { key, title, books }
}

} // verus!

verus! {

/// The purchase keys a `/user/order` listing names, in order: the string
/// `gamekey` of each entry that has one.
pub open spec fn spec_order_keys(data: JsonValue) -> Seq<Seq<char>> {
    match data.spec_as_array() {
        Some(entries) => entries.filter_map(|e: JsonValue| get_str(e, "gamekey"@)),
        None => Seq::empty(),
    }
}

pub open spec fn strings_view(v: Seq<String>) -> Seq<Seq<char>> {
    v.map_values(|s: String| s@)
}

/// The purchase keys of a `/user/order` listing.
pub fn order_keys(data: &JsonValue) -> (res: Vec<String>)
    ensures
        strings_view(res@) == spec_order_keys(*data),
{
    let mut keys: Vec<String> = Vec::new();
    let ghost f = |e: JsonValue| get_str(e, "gamekey"@);
    match data.as_array() {
        Some(entries) => {
            let mut i: usize = 0;
            assert(entries@.take(0).filter_map(f) =~= Seq::<Seq<char>>::empty());
            assert(strings_view(keys@) =~= Seq::<Seq<char>>::empty());
            while i < entries.len()
                invariant
                    i <= entries.len(),
                    f == (|e: JsonValue| get_str(e, "gamekey"@)),
                    strings_view(keys@) == entries@.take(i as int).filter_map(f),
                decreases entries.len() - i,
            {
                proof {
                    entries@.lemma_filter_map_take_succ(f, i as int);
                }
                let ghost before = keys@;
                let ghost prev = entries@.take(i as int).filter_map(f);
                match str_member(&entries[i], "gamekey") {
                    Some(k) => {
                        keys.push(String::from_str(k));
                        assert(strings_view(keys@) =~= strings_view(before).push(k@));
                        assert(entries@.take(i + 1).filter_map(f) =~= prev + seq![k@]);
                    },
                    None => {
                        assert(entries@.take(i + 1).filter_map(f) =~= prev + Seq::<Seq<char>>::empty());
                    },
                }
                i = i + 1;
            }
            assert(entries@.take(entries.len() as int) =~= entries@);
        },
        None => {
            assert(strings_view(keys@) =~= Seq::<Seq<char>>::empty());
        },
    }
    keys
}

/// The publisher directory for a book: the one the bundle title names,
/// else the book's own, else `Unknown`.
pub open spec fn publisher_for(title_publisher: Option<Seq<char>>, book: BookView) -> Seq<char> {
    match title_publisher {
        Some(p) => p,
        None => match book.publisher {
            Some(p) => p,
            None => "Unknown"@,
        },
    }
}

/// Whether a format passes the format filter (no filter passes all).
pub open spec fn wanted(formats: Option<Seq<Seq<char>>>, format: Seq<char>) -> bool {
    match formats {
        Some(fs) => fs.contains(format),
        None => true,
    }
}

/// The file name for a download: the decoded last segment of its URL, else
/// `<sanitized book title>.<format>`.
pub open spec fn file_name_for(book: BookView, file: DownloadFileView) -> Seq<char> {
    match spec_filename_from_url(file.url) {
        Some(n) => n,
        None => spec_sanitize(book.title) + seq!['.'] + file.format,
    }
}

/// The task for one file: `output/publisher/bundle/format/filename`, each
/// segment sanitized, carrying the file's URL, size and MD5.
pub open spec fn task_for(
    output: Seq<char>,
    title_publisher: Option<Seq<char>>,
    bundle: Seq<char>,
    book: BookView,
    file: DownloadFileView,
) -> DownloadTaskView {
    let dest = path_join(
        path_join(
            path_join(
                path_join(output, spec_sanitize(publisher_for(title_publisher, book))),
                spec_sanitize(bundle),
            ),
            spec_sanitize(file.format),
        ),
        spec_sanitize(file_name_for(book, file)),
    );
    DownloadTaskView { url: file.url, dest, size: file.size, md5: file.md5 }
}

/// The tasks for the wanted files of one book, in file order.
pub open spec fn book_tasks(
    output: Seq<char>,
    title_publisher: Option<Seq<char>>,
    bundle: Seq<char>,
    formats: Option<Seq<Seq<char>>>,
    book: BookView,
) -> Seq<DownloadTaskView> {
    book.files.filter_map(
        |f: DownloadFileView|
            if wanted(formats, f.format) {
                Some(task_for(output, title_publisher, bundle, book, f))
            } else {
                None
            },
    )
}

/// The tasks for an order: book by book, the wanted files of each.
pub open spec fn spec_build_tasks(
    order: OrderView,
    output: Seq<char>,
    formats: Option<Seq<Seq<char>>>,
) -> Seq<DownloadTaskView> {
    let (title_publisher, bundle) = spec_parse_bundle_title(order.title);
    order.books.map_values(
        |b: BookView| book_tasks(output, title_publisher, bundle, formats, b),
    ).flatten()
}

pub open spec fn tasks_view(tasks: Seq<DownloadTask>) -> Seq<DownloadTaskView> {
    tasks.map_values(|t: DownloadTask| t@)
}

pub open spec fn formats_view(formats: Option<&Vec<String>>) -> Option<Seq<Seq<char>>> {
    match formats {
        Some(v) => Some(strings_view(v@)),
        None => None,
    }
}

/// Whether `format` is one of `formats`.
pub(crate) fn contains_format(formats: &Vec<String>, format: &str) -> (res: bool)
    ensures
        res == strings_view(formats@).contains(format@),
{
    let mut i: usize = 0;
    while i < formats.len()
        invariant
            i <= formats.len(),
            forall|j: int| 0 <= j < i ==> formats@[j]@ != format@,
        decreases formats.len() - i,
    {
        if str_eq(formats[i].as_str(), format) {
            assert(strings_view(formats@)[i as int] == format@);
            return true;
        }
        i = i + 1;
    }
    assert forall|j: int| 0 <= j < strings_view(formats@).len() implies strings_view(
        formats@,
    )[j] != format@ by {
        assert(strings_view(formats@)[j] == formats@[j]@);
    }
    false
}

fn clone_opt(s: &Option<String>) -> (res: Option<String>)
    ensures
        opt_view(res) == opt_view(*s),
{
    match s {
        Some(t) => Some(String::from_str(t.as_str())),
        None => None,
    }
}

/// The download task for one file.
fn make_task(
    output: &str,
    publisher: &str,
    bundle: &str,
    book: &Book,
    file: &DownloadFile,
) -> (res: DownloadTask)
    ensures
        res@ == task_for(
            output@,
            Some(publisher@),
            bundle@,
            book@,
            file@,
        ),
{
    let filename = match filename_from_url(file.url.as_str()) {
        Some(n) => n,
        None => {
            let mut n = sanitize(book.title.as_str());
            n.append(".");
            n.append(file.format.as_str());
            proof {
                reveal_strlit(".");
            }
            assert(n@ =~= spec_sanitize(book.title@) + seq!['.'] + file.format@);
            n
        },
    };
    assert(filename@ == file_name_for(book@, file@));
    let p = sanitize(publisher);
    let b = sanitize(bundle);
    let f = sanitize(file.format.as_str());
    let n = sanitize(filename.as_str());
    let d1 = join_path(output, p.as_str());
    let d2 = join_path(d1.as_str(), b.as_str());
    let d3 = join_path(d2.as_str(), f.as_str());
    let dest = join_path(d3.as_str(), n.as_str());
    DownloadTask {
        url: String::from_str(file.url.as_str()),
        dest,
        size: file.size,
        md5: clone_opt(&file.md5),
    }
}

/// The download tasks for an order: for each book, each file whose format
/// passes the filter goes to `output/publisher/bundle/format/filename`,
/// where publisher and bundle come from the order title (the publisher
/// falling back to the book's, then `Unknown`), the file name from the
/// download URL (falling back to `<book title>.<format>`), and every
/// segment is sanitized.
pub fn build_tasks(order: &Order, output: &str, formats: Option<&Vec<String>>) -> (res: Vec<
    DownloadTask,
>)
    ensures
        tasks_view(res@) == spec_build_tasks(order@, output@, formats_view(formats)),
{
    let (publisher_from_title, bundle_dir) = parse_bundle_title(order.title.as_str());
    let ghost tp = spec_parse_bundle_title(order@.title).0;
    let ghost bundle = spec_parse_bundle_title(order@.title).1;
    let ghost fv = formats_view(formats);
    let ghost bt = |b: BookView| book_tasks(output@, tp, bundle, fv, b);
    let ghost books = order@.books;
    let mut tasks: Vec<DownloadTask> = Vec::new();
    let mut i: usize = 0;
    assert(books.take(0).map_values(bt).flatten() =~= Seq::<DownloadTaskView>::empty());
    assert(tasks_view(tasks@) =~= Seq::<DownloadTaskView>::empty());
    while i < order.books.len()
        invariant
            i <= order.books.len(),
            books == order@.books,
            books.len() == order.books.len(),
            opt_view(publisher_from_title) == tp,
            bundle_dir@ == bundle,
            fv == formats_view(formats),
            bt == (|b: BookView| book_tasks(output@, tp, bundle, fv, b)),
            tasks_view(tasks@) == books.take(i as int).map_values(bt).flatten(),
        decreases order.books.len() - i,
    {
        let book = &order.books[i];
        assert(books[i as int] == book@);
        let publisher = match &publisher_from_title {
            Some(p) => String::from_str(p.as_str()),
            None => match &book.publisher {
                Some(p) => String::from_str(p.as_str()),
                None => String::from_str("Unknown"),
            },
        };
        assert(publisher@ == publisher_for(tp, book@));
        let ghost sel = |f: DownloadFileView|
            if wanted(fv, f.format) {
                Some(task_for(output@, tp, bundle, book@, f))
            } else {
                None
            };
        let ghost start = tasks_view(tasks@);
        let ghost fs = book@.files;
        let mut j: usize = 0;
        assert(fs.take(0).filter_map(sel) =~= Seq::<DownloadTaskView>::empty());
        assert(tasks_view(tasks@) =~= start + fs.take(0).filter_map(sel));
        while j < book.files.len()
            invariant
                j <= book.files.len(),
                fs == book@.files,
                fs.len() == book.files.len(),
                publisher@ == publisher_for(tp, book@),
                bundle_dir@ == bundle,
                fv == formats_view(formats),
                sel == (|f: DownloadFileView|
                    if wanted(fv, f.format) {
                        Some(task_for(output@, tp, bundle, book@, f))
                    } else {
                        None
                    }),
                tasks_view(tasks@) == start + fs.take(j as int).filter_map(sel),
            decreases book.files.len() - j,
        {
            let file = &book.files[j];
            assert(fs[j as int] == file@);
            proof {
                fs.lemma_filter_map_take_succ(sel, j as int);
            }
            let ghost before = tasks@;
            let ghost prev = fs.take(j as int).filter_map(sel);
            let keep = match formats {
                Some(fmts) => contains_format(fmts, file.format.as_str()),
                None => true,
            };
            assert(keep == wanted(fv, file@.format));
            if keep {
                let task = make_task(output, publisher.as_str(), bundle_dir.as_str(), book, file);
                assert(task@ == task_for(output@, tp, bundle, book@, file@)) by {
                    assert(task_for(output@, Some(publisher@), bundle, book@, file@) == task_for(
                        output@,
                        tp,
                        bundle,
                        book@,
                        file@,
                    ));
                }
                tasks.push(task);
                assert(tasks_view(tasks@) =~= tasks_view(before).push(task@));
                assert(fs.take(j + 1).filter_map(sel) =~= prev + seq![task@]);
            } else {
                assert(fs.take(j + 1).filter_map(sel) =~= prev + Seq::<DownloadTaskView>::empty());
            }
            j = j + 1;
        }
        proof {
            assert(fs.take(fs.len() as int) =~= fs);
            assert(bt(book@) == fs.filter_map(sel));
            assert(books.take(i + 1).map_values(bt) =~= books.take(i as int).map_values(bt).push(
                bt(book@),
            ));
            books.take(i as int).map_values(bt).lemma_flatten_push(bt(book@));
        }
        i = i + 1;
    }
    assert(books.take(books.len() as int) =~= books);
    tasks
}

pub(crate) proof fn lemma_flatten_index<A>(s: Seq<Seq<A>>, k: int)
    requires
        0 <= k < s.flatten().len(),
    ensures
        exists|i: int, j: int|
            0 <= i < s.len() && 0 <= j < s[i].len() && #[trigger] s[i][j] == s.flatten()[k],
    decreases s.len(),
{
    if s.len() == 0 {
    } else {
        let rest = s.drop_first();
        assert(s.flatten() == s[0] + rest.flatten());
        if k < s[0].len() {
            assert(s[0][k] == s.flatten()[k]);
        } else {
            lemma_flatten_index(rest, k - s[0].len());
            let (i, j) = choose|i: int, j: int|
                0 <= i < rest.len() && 0 <= j < rest[i].len() && #[trigger] rest[i][j]
                    == rest.flatten()[k - s[0].len()];
            assert(s[i + 1][j] == s.flatten()[k]);
        }
    }
}

/// Every task is made by `task_for` from a file of a book of the order.
pub(crate) proof fn lemma_task_origin(
    order: OrderView,
    output: Seq<char>,
    formats: Option<Seq<Seq<char>>>,
    k: int,
)
    requires
        0 <= k < spec_build_tasks(order, output, formats).len(),
    ensures
        exists|i: int, j: int|
            0 <= i < order.books.len() && 0 <= j < order.books[i].files.len() && (
            #[trigger] spec_build_tasks(order, output, formats)[k]) == task_for(
                output,
                crate::naming::spec_parse_bundle_title(order.title).0,
                crate::naming::spec_parse_bundle_title(order.title).1,
                order.books[i],
                order.books[i].files[j],
            ) && wanted(formats, order.books[i].files[j].format),
{
    let tp = crate::naming::spec_parse_bundle_title(order.title).0;
    let bundle = crate::naming::spec_parse_bundle_title(order.title).1;
    let bt = |b: BookView| book_tasks(output, tp, bundle, formats, b);
    let per_book = order.books.map_values(bt);
    assert(spec_build_tasks(order, output, formats) == per_book.flatten());
    lemma_flatten_index(per_book, k);
    let (i, m) = choose|i: int, m: int|
        0 <= i < per_book.len() && 0 <= m < per_book[i].len() && #[trigger] per_book[i][m]
            == per_book.flatten()[k];
    let b = order.books[i];
    let t = per_book[i][m];
    let sel = |f: DownloadFileView|
        if wanted(formats, f.format) {
            Some(task_for(output, tp, bundle, b, f))
        } else {
            None
        };
    assert(per_book[i] == b.files.filter_map(sel));
    assert(per_book[i].contains(t));
    b.files.lemma_filter_map_contains(sel, t);
    let f = choose|f: DownloadFileView| #[trigger] b.files.contains(f) && sel(f) == Some(t);
    let j = choose|j: int| 0 <= j < b.files.len() && b.files[j] == f;
    assert(spec_build_tasks(order, output, formats)[k] == task_for(output, tp, bundle, b, b.files[j]));
}

/// An element of one of the sequences is an element of their concatenation.
proof fn lemma_flatten_contains<A>(s: Seq<Seq<A>>, i: int, j: int)
    requires
        0 <= i < s.len(),
        0 <= j < s[i].len(),
    ensures
        s.flatten().contains(s[i][j]),
    decreases s.len(),
{
    let rest = s.drop_first();
    assert(s.flatten() == s[0] + rest.flatten());
    if i == 0 {
        assert((s[0] + rest.flatten())[j] == s[0][j]);
    } else {
        assert(rest[i - 1] == s[i]);
        lemma_flatten_contains(rest, i - 1, j);
        let k = choose|k: int| 0 <= k < rest.flatten().len() && rest.flatten()[k] == s[i][j];
        assert((s[0] + rest.flatten())[s[0].len() + k] == s[i][j]);
    }
}

/// An element that `f` maps to a value keeps that value in `filter_map`.
proof fn lemma_filter_map_keeps<A, B>(s: Seq<A>, f: spec_fn(A) -> Option<B>, j: int)
    requires
        0 <= j < s.len(),
        f(s[j]) is Some,
    ensures
        s.filter_map(f).contains(f(s[j])->0),
    decreases s.len(),
{
    let rest = s.drop_last();
    if j == s.len() - 1 {
        let out = s.filter_map(f);
        assert(out == rest.filter_map(f) + seq![f(s[j])->0]);
        assert(out[out.len() - 1] == f(s[j])->0);
    } else {
        assert(rest[j] == s[j]);
        lemma_filter_map_keeps(rest, f, j);
        let k = choose|k: int|
            0 <= k < rest.filter_map(f).len() && rest.filter_map(f)[k] == f(s[j])->0;
        match f(s.last()) {
            Some(v) => {
                assert(s.filter_map(f) == rest.filter_map(f) + seq![v]);
                assert(s.filter_map(f)[k] == f(s[j])->0);
            },
            None => {},
        }
    }
}

/// The format filter only removes tasks: every task built with a filter is
/// one of the tasks built without it, the same destination, URL, size and
/// MD5.
pub proof fn law_format_filter_only_removes(
    order: OrderView,
    output: Seq<char>,
    formats: Seq<Seq<char>>,
)
    ensures
        forall|k: int|
            0 <= k < spec_build_tasks(order, output, Some(formats)).len() ==> spec_build_tasks(
                order,
                output,
                None,
            ).contains(#[trigger] spec_build_tasks(order, output, Some(formats))[k]),
{
    let tp = spec_parse_bundle_title(order.title).0;
    let bundle = spec_parse_bundle_title(order.title).1;
    assert forall|k: int| 0 <= k < spec_build_tasks(order, output, Some(formats)).len() implies spec_build_tasks(
        order,
        output,
        None,
    ).contains(#[trigger] spec_build_tasks(order, output, Some(formats))[k]) by {
        lemma_task_origin(order, output, Some(formats), k);
        let (i, j) = choose|i: int, j: int|
            0 <= i < order.books.len() && 0 <= j < order.books[i].files.len() && (
            #[trigger] spec_build_tasks(order, output, Some(formats))[k]) == task_for(
                output,
                tp,
                bundle,
                order.books[i],
                order.books[i].files[j],
            );
        let b = order.books[i];
        let bt = |bb: BookView| book_tasks(output, tp, bundle, None, bb);
        let per_book = order.books.map_values(bt);
        assert(spec_build_tasks(order, output, None) == per_book.flatten());
        let sel = |f: DownloadFileView|
            if wanted(None, f.format) {
                Some(task_for(output, tp, bundle, b, f))
            } else {
                None
            };
        assert(per_book[i] == b.files.filter_map(sel));
        lemma_filter_map_keeps(b.files, sel, j);
        let m = choose|m: int|
            0 <= m < per_book[i].len() && per_book[i][m] == task_for(output, tp, bundle, b, b.files[j]);
        lemma_flatten_contains(per_book, i, m);
    }
}

/// With a format filter, a file is kept exactly when its format is one of
/// the requested ones, wherever in the list it stands: the task for a file
/// of a requested format is among the tasks built with the filter (as it is
/// among those built without one), and every task built with the filter is
/// the task for a file of a requested format.
pub proof fn law_format_filter_keeps_requested(
    order: OrderView,
    output: Seq<char>,
    formats: Seq<Seq<char>>,
    i: int,
    j: int,
)
    requires
        0 <= i < order.books.len(),
        0 <= j < order.books[i].files.len(),
    ensures
        ({
            let t = task_for(
                output,
                spec_parse_bundle_title(order.title).0,
                spec_parse_bundle_title(order.title).1,
                order.books[i],
                order.books[i].files[j],
            );
            &&& spec_build_tasks(order, output, None).contains(t)
            &&& formats.contains(order.books[i].files[j].format) ==> spec_build_tasks(
                order,
                output,
                Some(formats),
            ).contains(t)
        }),
        forall|k: int|
            0 <= k < spec_build_tasks(order, output, Some(formats)).len() ==> exists|bi: int, fj: int|
                0 <= bi < order.books.len() && 0 <= fj < order.books[bi].files.len()
                    && formats.contains(order.books[bi].files[fj].format) && (
                #[trigger] spec_build_tasks(order, output, Some(formats))[k]) == task_for(
                    output,
                    spec_parse_bundle_title(order.title).0,
                    spec_parse_bundle_title(order.title).1,
                    order.books[bi],
                    order.books[bi].files[fj],
                ),
{
    let tp = spec_parse_bundle_title(order.title).0;
    let bundle = spec_parse_bundle_title(order.title).1;
    let b = order.books[i];
    let t = task_for(output, tp, bundle, b, b.files[j]);
    lemma_file_task_kept(order, output, None, i, j);
    if formats.contains(b.files[j].format) {
        lemma_file_task_kept(order, output, Some(formats), i, j);
    }
    assert forall|k: int| 0 <= k < spec_build_tasks(order, output, Some(formats)).len() implies exists|
        bi: int,
        fj: int,
    |
        0 <= bi < order.books.len() && 0 <= fj < order.books[bi].files.len() && formats.contains(
            order.books[bi].files[fj].format,
        ) && (#[trigger] spec_build_tasks(order, output, Some(formats))[k]) == task_for(
            output,
            tp,
            bundle,
            order.books[bi],
            order.books[bi].files[fj],
        ) by {
        lemma_task_origin(order, output, Some(formats), k);
    }
}

/// The task for a file whose format passes the filter is among the tasks.
proof fn lemma_file_task_kept(
    order: OrderView,
    output: Seq<char>,
    formats: Option<Seq<Seq<char>>>,
    i: int,
    j: int,
)
    requires
        0 <= i < order.books.len(),
        0 <= j < order.books[i].files.len(),
        wanted(formats, order.books[i].files[j].format),
    ensures
        spec_build_tasks(order, output, formats).contains(
            task_for(
                output,
                spec_parse_bundle_title(order.title).0,
                spec_parse_bundle_title(order.title).1,
                order.books[i],
                order.books[i].files[j],
            ),
        ),
{
    let tp = spec_parse_bundle_title(order.title).0;
    let bundle = spec_parse_bundle_title(order.title).1;
    let b = order.books[i];
    let bt = |bb: BookView| book_tasks(output, tp, bundle, formats, bb);
    let per_book = order.books.map_values(bt);
    assert(spec_build_tasks(order, output, formats) == per_book.flatten());
    let sel = |f: DownloadFileView|
        if wanted(formats, f.format) {
            Some(task_for(output, tp, bundle, b, f))
        } else {
            None
        };
    assert(per_book[i] == b.files.filter_map(sel));
    lemma_filter_map_keeps(b.files, sel, j);
    let m = choose|m: int|
        0 <= m < per_book[i].len() && per_book[i][m] == task_for(output, tp, bundle, b, b.files[j]);
    lemma_flatten_contains(per_book, i, m);
}

/// Every entry with a web URL and a name in the `download_struct` of any
/// `ebook` download of a subproduct, wherever that download stands among
/// the subproduct's downloads, becomes a file of that subproduct's book
/// (format: the name lowercased without leading dots; URL, size and MD5 as
/// given), and that book is one of the order's books.
pub proof fn law_every_ebook_file_is_kept(data: JsonValue, k: int, d: int, e: int)
    requires
        0 <= k < get_array(data, "subproducts"@).len(),
        0 <= d < get_array(get_array(data, "subproducts"@)[k], "downloads"@).len(),
        get_str(get_array(get_array(data, "subproducts"@)[k], "downloads"@)[d], "platform"@) == Some(
            "ebook"@,
        ),
        0 <= e < get_array(
            get_array(get_array(data, "subproducts"@)[k], "downloads"@)[d],
            "download_struct"@,
        ).len(),
        get_nested_str(
            get_array(
                get_array(get_array(data, "subproducts"@)[k], "downloads"@)[d],
                "download_struct"@,
            )[e],
            "url"@,
            "web"@,
        ) is Some,
        get_str(
            get_array(
                get_array(get_array(data, "subproducts"@)[k], "downloads"@)[d],
                "download_struct"@,
            )[e],
            "name"@,
        ) is Some,
    ensures
        ({
            let sub = get_array(data, "subproducts"@)[k];
            let st = get_array(get_array(sub, "downloads"@)[d], "download_struct"@)[e];
            let file = DownloadFileView {
                format: trim_leading_dots(str_lowercase(get_str(st, "name"@)->0)),
                url: get_nested_str(st, "url"@, "web"@)->0,
                size: get_u64(st, "file_size"@),
                md5: get_str(st, "md5"@),
            };
            &&& spec_book_of(sub) is Some
            &&& spec_book_of(sub)->0.files.contains(file)
            &&& spec_parse_order(data).books.contains(spec_book_of(sub)->0)
        }),
{
    let subs = get_array(data, "subproducts"@);
    let sub = subs[k];
    let downloads = get_array(sub, "downloads"@);
    let dl = downloads[d];
    let structs = get_array(dl, "download_struct"@);
    let st = structs[e];
    let file = DownloadFileView {
        format: trim_leading_dots(str_lowercase(get_str(st, "name"@)->0)),
        url: get_nested_str(st, "url"@, "web"@)->0,
        size: get_u64(st, "file_size"@),
        md5: get_str(st, "md5"@),
    };
    let sel = |x: JsonValue| spec_file_of(x);
    assert(sel(st) == Some(file));
    assert(spec_download_files(dl) == structs.filter_map(sel));
    lemma_filter_map_keeps(structs, sel, e);
    let df = |x: JsonValue| spec_download_files(x);
    let per = downloads.map_values(df);
    assert(per[d] == spec_download_files(dl));
    let m = choose|m: int| 0 <= m < per[d].len() && per[d][m] == file;
    lemma_flatten_contains(per, d, m);
    assert(spec_subproduct_files(sub) == per.flatten());
    let g = |x: JsonValue| spec_book_of(x);
    assert(g(sub) is Some);
    assert(spec_parse_order(data).books == subs.filter_map(g));
    lemma_filter_map_keeps(subs, g, k);
}

/// Conversely, every file of a subproduct comes from an entry with a web
/// URL and a name in the `download_struct` of one of its `ebook`
/// downloads: downloads of other platforms contribute nothing.
pub proof fn law_files_come_from_ebook_downloads(sub: JsonValue, m: int)
    requires
        0 <= m < spec_subproduct_files(sub).len(),
    ensures
        exists|d: int, e: int|
            0 <= d < get_array(sub, "downloads"@).len() && get_str(
                get_array(sub, "downloads"@)[d],
                "platform"@,
            ) == Some("ebook"@) && 0 <= e < get_array(
                get_array(sub, "downloads"@)[d],
                "download_struct"@,
            ).len() && ({
                let st = #[trigger] get_array(get_array(sub, "downloads"@)[d], "download_struct"@)[e];
                &&& get_nested_str(st, "url"@, "web"@) is Some
                &&& get_str(st, "name"@) is Some
                &&& spec_subproduct_files(sub)[m] == DownloadFileView {
                    format: trim_leading_dots(str_lowercase(get_str(st, "name"@)->0)),
                    url: get_nested_str(st, "url"@, "web"@)->0,
                    size: get_u64(st, "file_size"@),
                    md5: get_str(st, "md5"@),
                }
            }),
{
    let downloads = get_array(sub, "downloads"@);
    let df = |x: JsonValue| spec_download_files(x);
    let per = downloads.map_values(df);
    assert(spec_subproduct_files(sub) == per.flatten());
    lemma_flatten_index(per, m);
    let (d, j) = choose|d: int, j: int|
        0 <= d < per.len() && 0 <= j < per[d].len() && #[trigger] per[d][j] == per.flatten()[m];
    let dl = downloads[d];
    assert(per[d] == spec_download_files(dl));
    let file = per[d][j];
    assert(per[d].contains(file));
    if get_str(dl, "platform"@) != Some("ebook"@) {
        assert(per[d].len() == 0);
    }
    let structs = get_array(dl, "download_struct"@);
    let sel = |x: JsonValue| spec_file_of(x);
    assert(per[d] == structs.filter_map(sel));
    structs.lemma_filter_map_contains(sel, file);
    let st = choose|t: JsonValue| #[trigger] structs.contains(t) && sel(t) == Some(file);
    let e = choose|e: int| 0 <= e < structs.len() && structs[e] == st;
    assert(get_array(get_array(sub, "downloads"@)[d], "download_struct"@)[e] == st);
}

/// A single safe path segment: non-empty, no `/` or NUL, not ending in `.`
/// (so neither `.` nor `..`).
pub open spec fn safe_segment(seg: Seq<char>) -> bool {
    &&& seg.len() > 0
    &&& forall|i: int| 0 <= i < seg.len() ==> crate::naming::segment_char(#[trigger] seg[i])
    &&& seg.last() != '.'
}

/// Every download lands four levels below the output directory, at
/// `output/publisher/bundle/format/file`: its destination starts with the
/// output directory, and each of the four levels after it is a single safe
/// path segment, whatever the order's titles, formats and URLs.
pub proof fn law_tasks_land_in_four_safe_segments(
    order: OrderView,
    output: Seq<char>,
    formats: Option<Seq<Seq<char>>>,
    k: int,
)
    requires
        0 <= k < spec_build_tasks(order, output, formats).len(),
    ensures
        spec_build_tasks(order, output, formats)[k].dest.take(output.len() as int) == output,
        exists|p: Seq<char>, b: Seq<char>, f: Seq<char>, n: Seq<char>|
            #![trigger safe_segment(p), safe_segment(b), safe_segment(f), safe_segment(n)]
            safe_segment(p) && safe_segment(b) && safe_segment(f) && safe_segment(n)
                && spec_build_tasks(order, output, formats)[k].dest == output + separator_after(output)
                + p + seq!['/'] + b + seq!['/'] + f + seq!['/'] + n,
{
    let tp = spec_parse_bundle_title(order.title).0;
    let bundle = spec_parse_bundle_title(order.title).1;
    lemma_task_origin(order, output, formats, k);
    let (i, j) = choose|i: int, j: int|
        0 <= i < order.books.len() && 0 <= j < order.books[i].files.len() && (
        #[trigger] spec_build_tasks(order, output, formats)[k]) == task_for(
            output,
            tp,
            bundle,
            order.books[i],
            order.books[i].files[j],
        );
    let book = order.books[i];
    let file = book.files[j];
    let p = spec_sanitize(publisher_for(tp, book));
    let b = spec_sanitize(bundle);
    let f = spec_sanitize(file.format);
    let n = spec_sanitize(file_name_for(book, file));
    crate::naming::law_sanitize_gives_safe_segment(publisher_for(tp, book));
    crate::naming::law_sanitize_gives_safe_segment(bundle);
    crate::naming::law_sanitize_gives_safe_segment(file.format);
    crate::naming::law_sanitize_gives_safe_segment(file_name_for(book, file));
    assert(crate::naming::segment_char(p[0]) && crate::naming::segment_char(b[0])
        && crate::naming::segment_char(f[0]) && crate::naming::segment_char(n[0]));
    let d1 = output + separator_after(output) + p;
    assert(path_join(output, p) == d1);
    assert(d1.last() == p.last());
    assert(crate::naming::segment_char(p[p.len() - 1]));
    let d2 = d1 + seq!['/'] + b;
    assert(path_join(d1, b) == d2);
    assert(d2.last() == b[b.len() - 1]);
    let d3 = d2 + seq!['/'] + f;
    assert(path_join(d2, f) == d3);
    assert(d3.last() == f[f.len() - 1]);
    let d4 = d3 + seq!['/'] + n;
    assert(path_join(d3, n) == d4);
    let dest = spec_build_tasks(order, output, formats)[k].dest;
    assert(dest == d4);
    assert(d4 == output + separator_after(output) + p + seq!['/'] + b + seq!['/'] + f + seq![
        '/',
    ] + n);
    assert(dest.take(output.len() as int) =~= output);
    assert(safe_segment(p) && safe_segment(b) && safe_segment(f) && safe_segment(n));
}

} // verus!
