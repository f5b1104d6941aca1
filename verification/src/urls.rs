//! URL facts the library relies on: which API base to use and what a
//! download URL names its file.
use vstd::prelude::*;

use crate::text::{chars_of, opt_view, string_of};

verus! {

/// The Humble Bundle API base that the session cookie is sent to.
pub const API_BASE: &'static str = "https://www.humblebundle.com/api/v1";

/// The host of a parsed URL.
#[derive(Debug)]
pub enum UrlHost {
    /// An IPv4 address, as its 32 bits (first octet most significant).
    Ipv4(u32),
    /// An IPv6 address, as its 128 bits (first group most significant).
    Ipv6(u128),
    /// A domain name.
    Domain(String),
}

/// The parts of a URL that the library reads.
#[derive(Debug)]
pub struct ParsedUrl {
    /// The scheme, lowercased as the URL standard normalizes it.
    pub scheme: String,
    pub host: Option<UrlHost>,
    /// The path, percent-encoded as in the URL.
    pub path: String,
}

pub enum HostView {
    Ipv4(u32),
    Ipv6(u128),
    Domain(Seq<char>),
}

pub struct ParsedUrlView {
    pub scheme: Seq<char>,
    pub host: Option<HostView>,
    pub path: Seq<char>,
}

impl UrlHost {
    pub open spec fn view(&self) -> HostView {
        match self {
            UrlHost::Ipv4(b) => HostView::Ipv4(*b),
            UrlHost::Ipv6(b) => HostView::Ipv6(*b),
            UrlHost::Domain(d) => HostView::Domain(d@),
        }
    }
}

impl ParsedUrl {
    pub open spec fn view(&self) -> ParsedUrlView {
        ParsedUrlView {
            scheme: self.scheme@,
            host: match self.host {
                Some(h) => Some(h.view()),
                None => None,
            },
            path: self.path@,
        }
    }
}

pub open spec fn parsed_view(p: Option<ParsedUrl>) -> Option<ParsedUrlView> {
    match p {
        Some(u) => Some(u.view()),
        None => None,
    }
}

/// What `url::Url::parse` makes of a string: `None` when it is not an
/// absolute URL, otherwise its scheme, host and path.
pub uninterp spec fn url_parse(input: Seq<char>) -> Option<ParsedUrlView>;

/// Calls `url::Url::parse` and reads the scheme, host and path of the result.
/// The contract only names the outcome (`url_parse`); the URL grammar of the
/// WHATWG standard that decides it is not restated here.
#[verifier::external_body]
fn parse_url(input: &str) -> (res: Option<ParsedUrl>)
    ensures
        parsed_view(res) == url_parse(input@),
{
    let url = url::Url::parse(input).ok()?;
    let host = match url.host() {
        Some(url::Host::Ipv4(ip)) => Some(UrlHost::Ipv4(u32::from(ip))),
        Some(url::Host::Ipv6(ip)) => Some(UrlHost::Ipv6(u128::from(ip))),
        Some(url::Host::Domain(d)) => Some(UrlHost::Domain(d.to_string())),
        None => None,
    };
    Some(ParsedUrl { scheme: url.scheme().to_string(), host, path: url.path().to_string() })
}

/// What `urlencoding::decode` makes of a string: the percent-decoded text,
/// or `None` when the decoded bytes are not UTF-8.
pub uninterp spec fn url_decode(input: Seq<char>) -> Option<Seq<char>>;

/// Calls `urlencoding::decode`. The contract only names the outcome
/// (`url_decode`); percent-decoding and UTF-8 validation are not restated.
#[verifier::external_body]
fn percent_decode(input: &str) -> (res: Option<String>)
    ensures
        opt_view(res) == url_decode(input@),
{
    urlencoding::decode(input).ok().map(|s| s.into_owned())
}

/// The loopback addresses: IPv4 127.0.0.0/8, IPv6 ::1, and `localhost`.
pub open spec fn spec_host_is_loopback(host: HostView) -> bool {
    match host {
        HostView::Ipv4(bits) => bits / 0x100_0000 == 127,
        HostView::Ipv6(bits) => bits == 1,
        HostView::Domain(d) => d == "localhost"@,
    }
}

/// Whether a parsed host is a loopback address or `localhost`.
pub fn host_is_loopback(host: &UrlHost) -> (res: bool)
    ensures
        res == spec_host_is_loopback(host.view()),
{
    match host {
        UrlHost::Ipv4(bits) => *bits / 0x100_0000 == 127,
        UrlHost::Ipv6(bits) => *bits == 1,
        UrlHost::Domain(d) => crate::text::str_eq(d.as_str(), "localhost"),
    }
}

/// Whether `candidate` parses as a URL whose host is a loopback address.
pub open spec fn spec_is_loopback_url(candidate: Seq<char>) -> bool {
    match url_parse(candidate) {
        Some(u) => match u.host {
            Some(h) => spec_host_is_loopback(h),
            None => false,
        },
        None => false,
    }
}

/// Whether `candidate` is a URL whose host is a loopback address
/// (127.0.0.0/8, ::1) or `localhost`.
pub fn is_loopback_url(candidate: &str) -> (res: bool)
    ensures
        res == spec_is_loopback_url(candidate@),
{
    match parse_url(candidate) {
        Some(u) => match &u.host {
            Some(h) => host_is_loopback(h),
            None => false,
        },
        None => false,
    }
}

/// A download URL may be fetched when it is an `https` URL, or any URL on a
/// loopback host.
pub open spec fn spec_download_url_allowed(url: Seq<char>) -> bool {
    match url_parse(url) {
        Some(u) => u.scheme == "https"@ || match u.host {
            Some(h) => spec_host_is_loopback(h),
            None => false,
        },
        None => false,
    }
}

/// Whether a download URL may be fetched: plaintext URLs are refused
/// except on loopback, so signed links never travel unencrypted.
pub fn download_url_allowed(url: &str) -> (res: bool)
    ensures
        res == spec_download_url_allowed(url@),
{
    match parse_url(url) {
        Some(u) => crate::text::str_eq(u.scheme.as_str(), "https") || match &u.host {
            Some(h) => host_is_loopback(h),
            None => false,
        },
        None => false,
    }
}

/// The API base to use given the value of `HBSYNC_API_BASE`: the override
/// only when it is a loopback URL, since the session cookie goes there.
pub open spec fn spec_resolve_base_url(override_url: Option<Seq<char>>) -> Seq<char> {
    match override_url {
        Some(u) => if spec_is_loopback_url(u) {
            u
        } else {
            API_BASE@
        },
        None => API_BASE@,
    }
}

/// Resolve the API base URL from the value of `HBSYNC_API_BASE`, if set.
///
/// Every request carries the Humble session cookie, so an unvalidated
/// override would let anything able to set an environment variable redirect
/// that cookie to a host of its choosing. The override therefore only
/// accepts loopback addresses, which is all the integration tests need.
pub fn resolve_base_url(override_url: Option<&str>) -> (res: String)
    ensures
        res@ == spec_resolve_base_url(
            match override_url {
                Some(u) => Some(u@),
                None => None,
            },
        ),
{
    match override_url {
        Some(u) => if is_loopback_url(u) {
            String::from_str(u)
        } else {
            String::from_str(API_BASE)
        },
        None => String::from_str(API_BASE),
    }
}

/// The last `/`-separated segment of a URL path, when the path starts with
/// `/` (what `Url::path_segments` then `next_back` yield).
pub open spec fn spec_last_path_segment(path: Seq<char>) -> Option<Seq<char>> {
    if path.len() > 0 && path[0] == '/' {
        match crate::naming::last_index_of(path, '/') {
            Some(i) => Some(path.skip(i + 1)),
            None => None,
        }
    } else {
        None
    }
}

/// The last segment of a URL path that starts with `/`.
pub fn last_path_segment(path: &str) -> (res: Option<String>)
    ensures
        opt_view(res) == spec_last_path_segment(path@),
{
    let chars = chars_of(path);
    if chars.len() == 0 || chars[0] != '/' {
        return None;
    }
    let mut e: usize = chars.len();
    assert(chars@.take(e as int) =~= chars@);
    while e > 0 && chars[e - 1] != '/'
        invariant
            0 < chars.len(),
            chars@[0] == '/',
            1 <= e <= chars.len(),
            crate::naming::last_index_of(chars@, '/') == crate::naming::last_index_of(
                chars@.take(e as int),
                '/',
            ),
        decreases e,
    {
        assert(chars@.take(e as int).drop_last() =~= chars@.take(e - 1));
        e = e - 1;
    }
    assert(chars@.skip(e as int) =~= chars@.subrange(e as int, chars.len() as int));
    Some(string_of(&chars, e, chars.len()))
}

/// The file name a download URL names: its last path segment,
/// percent-decoded, when that is non-empty and decodes to UTF-8.
pub open spec fn spec_filename_from_url(url: Seq<char>) -> Option<Seq<char>> {
    match url_parse(url) {
        Some(u) => match spec_last_path_segment(u.path) {
            Some(seg) => if seg.len() > 0 {
                url_decode(seg)
            } else {
                None
            },
            None => None,
        },
        None => None,
    }
}

/// The decoded last path segment of `url`, if it has a non-empty one.
pub fn filename_from_url(url: &str) -> (res: Option<String>)
    ensures
        opt_view(res) == spec_filename_from_url(url@),
{
    let parsed = parse_url(url)?;
    let last = last_path_segment(parsed.path.as_str())?;
    if last.unicode_len() == 0 {
        return None;
    }
    percent_decode(last.as_str())
}

} // verus!

verus! {

/// The session cookie only ever goes to the Humble Bundle API or to a
/// loopback address: whatever `HBSYNC_API_BASE` holds, the base URL chosen
/// is the built-in one or a loopback URL.
pub proof fn law_cookie_stays_home(override_url: Option<Seq<char>>)
    ensures
        spec_resolve_base_url(override_url) == API_BASE@ || spec_is_loopback_url(
            spec_resolve_base_url(override_url),
        ),
{
}

} // verus!
