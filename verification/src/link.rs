//! Absolute URLs, the resolution of links against the page that holds them, and the scope rule.

use vstd::prelude::*;
use reqwest::Url;
use crate::text::{opt_view, same_text};

verus! {

/// The normal form of an absolute URL, as `Url::parse` serialises it; `None` for a text that
/// does not parse as an absolute URL.
pub uninterp spec fn absolute_url(s: Seq<char>) -> Option<Seq<char>>;

/// The absolute URL that the reference `href` stands for on the page at `base`, as `Url::join`
/// resolves it; `None` where `base` is no absolute URL or the reference cannot be resolved.
pub uninterp spec fn resolved_url(base: Seq<char>, href: Seq<char>) -> Option<Seq<char>>;

/// The host of a URL, as `Url::host_str` gives it: a domain name or an address; `None` for a
/// text that is no absolute URL, and for a URL without a host.
pub uninterp spec fn url_host(url: Seq<char>) -> Option<Seq<char>>;

/// `Url::parse`, with the URL handed back in its serialised form: the result is the normal form
/// of `s`, or `None` where `s` does not parse.
#[verifier::external_body]
pub(crate) fn parse_url(s: &str) -> (r: Option<String>)
    ensures
        opt_view(r) == absolute_url(s@),
{
    Url::parse(s).ok().map(String::from)
}

/// `Url::join` on the URL that `base` parses to, with the outcome in its serialised form: the
/// result is the resolution of `href` against `base`, or `None` where either step fails.
#[verifier::external_body]
pub(crate) fn join_url(base: &str, href: &str) -> (r: Option<String>)
    ensures
        opt_view(r) == resolved_url(base@, href@),
{
    Url::parse(base).ok().and_then(|b| b.join(href).ok()).map(String::from)
}

/// `Url::host_str` on the URL that `url` parses to: the result is the host of that URL, or
/// `None` where `url` does not parse or the URL has no host.
#[verifier::external_body]
pub(crate) fn host_of(url: &str) -> (r: Option<String>)
    ensures
        opt_view(r) == url_host(url@),
{
    Url::parse(url).ok().and_then(|u| u.host_str().map(String::from))
}

/// Whether two URLs lie on the same site: both have a host, and the two hosts are the same.
/// A URL without a host lies on no site.
pub open spec fn same_site(page: Seq<char>, link: Seq<char>) -> bool {
    url_host(link) is Some && url_host(link) == url_host(page)
}

/// The scope rule: a link found on a page is followed when the crawl may leave the site, or
/// when the link lies on the site of the page that holds it.
pub open spec fn in_scope(follow_offsite: bool, page: Seq<char>, link: Seq<char>) -> bool {
    follow_offsite || same_site(page, link)
}

/// Decides whether the link `link`, found on the page at `page`, is followed.
pub fn follows(follow_offsite: bool, page: &str, link: &str) -> (r: bool)
    ensures
        r == in_scope(follow_offsite, page@, link@),
{
    if follow_offsite {
        return true;
    }
    let here = host_of(page);
    follows_from(follow_offsite, &here, link)
}

/// Decides whether the link `link` is followed from a page whose host is `here`.
pub fn follows_from(follow_offsite: bool, here: &Option<String>, link: &str) -> (r: bool)
    ensures
        r == (follow_offsite || (url_host(link@) is Some && url_host(link@) == opt_view(*here))),
{
    if follow_offsite {
        return true;
    }
    let there = host_of(link);
    same_host(&there, here)
}

/// Whether two hosts are the same: both are present, and they have the same name. A missing
/// host is the same as no host, not even as another missing one.
pub fn same_host(a: &Option<String>, b: &Option<String>) -> (r: bool)
    ensures
        r == (opt_view(*a) is Some && opt_view(*a) == opt_view(*b)),
{
    match (a, b) {
        (Some(x), Some(y)) => same_text(x, y),
        _ => false,
    }
}

} // verus!
