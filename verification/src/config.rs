//! The configuration of a crawl, and the extra request headers that are part of it.

use vstd::prelude::*;
use std::str::FromStr;
use reqwest::header::{HeaderName, HeaderValue};
use crate::error::{ConfigError, ConfigErrorView};
use crate::text::{ascii_lower, ascii_lowered, chars_of, opt_view, trim_range, trimmed};

verus! {

/// A character that a header name may hold: an ASCII letter or digit, or one of
/// ``!"#$%&'*+-.^_`|~``.
pub open spec fn header_name_char(c: char) -> bool {
    ||| ('!' <= c && c <= '\'')
    ||| c == '*'
    ||| c == '+'
    ||| c == '-'
    ||| c == '.'
    ||| ('0' <= c && c <= '9')
    ||| ('A' <= c && c <= 'Z')
    ||| ('^' <= c && c <= 'z')
    ||| c == '|'
    ||| c == '~'
}

/// The longest header name, in characters.
pub open spec fn max_header_name_len() -> nat {
    65535
}

/// The normal form of a header name: the name with its capital letters in lowercase. `None`
/// for a text that is no valid header name: an empty one, one of more than 65535 characters,
/// or one that holds a character which may not stand in a header name.
pub open spec fn canonical_header_name(name: Seq<char>) -> Option<Seq<char>> {
    if 1 <= name.len() <= max_header_name_len() && forall|i: int|
        0 <= i < name.len() ==> header_name_char(#[trigger] name[i]) {
        Some(ascii_lowered(name))
    } else {
        None
    }
}

/// A character that a header value may hold: the tab, or any character from the space on but
/// the delete character.
pub open spec fn header_value_char(c: char) -> bool {
    c == '\t' || (c >= ' ' && c != '\x7f')
}

/// A text that is a valid header value: each of its characters may stand in one.
pub open spec fn valid_header_value(value: Seq<char>) -> bool {
    forall|i: int| 0 <= i < value.len() ==> header_value_char(#[trigger] value[i])
}

/// `HeaderName::from_str`, with the name handed back as `HeaderName::as_str` gives it. The
/// name is accepted where it has from 1 to 65535 bytes and each of them is a token character,
/// and the name handed back has each capital letter in lowercase. A character beyond ASCII is
/// made of bytes that are no token characters, so the same holds over characters.
#[verifier::external_body]
pub(crate) fn header_name(name: &str) -> (r: Option<String>)
    ensures
        opt_view(r) == canonical_header_name(name@),
{
    HeaderName::from_str(name).ok().map(|n| n.as_str().to_string())
}

/// `HeaderValue::from_str`, asked only whether it accepts: it does where every byte of `value`
/// is the tab or at least 32 and not 127, which is to say where every character is one that a
/// header value may hold.
#[verifier::external_body]
pub(crate) fn header_value_ok(value: &str) -> (r: bool)
    ensures
        r == valid_header_value(value@),
{
    HeaderValue::from_str(value).is_ok()
}

/// One extra request header.
#[derive(Debug)]
pub struct Header {
    pub name: String,
    pub value: String,
}

/// A header as plain values.
pub struct HeaderView {
    pub name: Seq<char>,
    pub value: Seq<char>,
}

impl Header {
    /// The header as plain values.
    pub open spec fn view(&self) -> HeaderView {
        HeaderView { name: self.name@, value: self.value@ }
    }
}

/// The views of a list of headers.
pub open spec fn header_views(hs: Seq<Header>) -> Seq<HeaderView> {
    Seq::new(hs.len(), |i: int| hs[i]@)
}

/// How many characters at the start of `s` come before the first colon.
pub open spec fn colon_at(s: Seq<char>) -> nat
    decreases s.len(),
{
    if s.len() == 0 || s[0] == ':' {
        0
    } else {
        1 + colon_at(s.drop_first())
    }
}

/// A run of `colon_at` characters holds no colon and stops at the end of the text or in front
/// of a colon.
pub proof fn lemma_colon_at(s: Seq<char>)
    ensures
        colon_at(s) <= s.len(),
        forall|i: int| 0 <= i < colon_at(s) ==> #[trigger] s[i] != ':',
        colon_at(s) < s.len() ==> s[colon_at(s) as int] == ':',
    decreases s.len(),
{
    if s.len() != 0 && s[0] != ':' {
        let t = s.drop_first();
        lemma_colon_at(t);
        assert forall|i: int| 0 <= i < colon_at(s) implies #[trigger] s[i] != ':' by {
            if i > 0 {
                assert(s[i] == t[i - 1]);
            }
        }
        if colon_at(s) < s.len() {
            assert(s[colon_at(s) as int] == t[colon_at(t) as int]);
        }
    }
}

/// The header that a line of the shape `Name: Value` stands for. The line is split at its
/// first colon, and both parts are trimmed. A line without a colon is malformed; the name has
/// to be a valid header name, and is put into its normal form; the value has to be a valid
/// header value.
pub open spec fn header_of(line: Seq<char>) -> Result<HeaderView, ConfigErrorView> {
    let n = colon_at(line) as int;
    if n >= line.len() {
        Err(ConfigErrorView::MalformedHeader(line))
    } else {
        let name = trimmed(line.subrange(0, n));
        let value = trimmed(line.subrange(n + 1, line.len() as int));
        match canonical_header_name(name) {
            None => Err(ConfigErrorView::InvalidHeaderName(name)),
            Some(canonical) => if valid_header_value(value) {
                Ok(HeaderView { name: canonical, value })
            } else {
                Err(ConfigErrorView::InvalidHeaderValue(value))
            },
        }
    }
}

/// The headers that a list of lines stands for, in the order of the lines; the error of the
/// first line that is refused, where one is.
pub open spec fn headers_of(lines: Seq<Seq<char>>) -> Result<Seq<HeaderView>, ConfigErrorView>
    decreases lines.len(),
{
    if lines.len() == 0 {
        Ok(Seq::empty())
    } else {
        match headers_of(lines.drop_last()) {
            Err(e) => Err(e),
            Ok(front) => match header_of(lines.last()) {
                Err(e) => Err(e),
                Ok(h) => Ok(front.push(h)),
            },
        }
    }
}

/// Reads one header from a line of the shape `Name: Value`.
pub fn header_from_string(line: &String) -> (r: Result<Header, ConfigError>)
    ensures
        match header_of(line@) {
            Ok(h) => r matches Ok(header) && header@ == h,
            Err(e) => r matches Err(error) && error@ == e,
        },
{
    let v = chars_of(line.as_str());
    proof {
        lemma_colon_at(v@);
    }
    let mut n: usize = 0;
    while n < v.len() && v[n] != ':'
        invariant
            n <= v.len(),
            n <= colon_at(v@) <= v@.len(),
            forall|i: int| 0 <= i < colon_at(v@) ==> #[trigger] v@[i] != ':',
            colon_at(v@) < v@.len() ==> v@[colon_at(v@) as int] == ':',
        decreases v.len() - n,
    {
        n += 1;
    }
    assert(n == colon_at(v@));
    if n >= v.len() {
        return Err(ConfigError::MalformedHeader(line.clone()));
    }
    let name = trim_range(&v, 0, n);
    let value = trim_range(&v, n + 1, v.len());
    match header_name(name.as_str()) {
        None => Err(ConfigError::InvalidHeaderName(name)),
        Some(canonical) => {
            if header_value_ok(value.as_str()) {
                Ok(Header { name: canonical, value })
            } else {
                Err(ConfigError::InvalidHeaderValue(value))
            }
        },
    }
}

/// Reads the extra request headers from lines of the shape `Name: Value`.
pub fn headers_from_strings(headers: &Vec<String>) -> (r: Result<Vec<Header>, ConfigError>)
    ensures
        match headers_of(crate::text::views(headers@)) {
            Ok(hs) => r matches Ok(list) && header_views(list@) == hs,
            Err(e) => r matches Err(error) && error@ == e,
        },
{
    let ghost lines = crate::text::views(headers@);
    let mut list: Vec<Header> = Vec::new();
    let mut i: usize = 0;
    proof {
        assert(lines.take(0) =~= Seq::<Seq<char>>::empty());
        assert(header_views(list@) =~= Seq::<HeaderView>::empty());
    }
    while i < headers.len()
        invariant
            i <= headers@.len(),
            lines == crate::text::views(headers@),
            headers_of(lines.take(i as int)) == Ok::<Seq<HeaderView>, ConfigErrorView>(
                header_views(list@),
            ),
        decreases headers@.len() - i,
    {
        let ghost sofar = header_views(list@);
        proof {
            assert(lines.take(i + 1).drop_last() =~= lines.take(i as int));
            assert(lines.take(i + 1).last() == headers@[i as int]@);
        }
        match header_from_string(&headers[i]) {
            Ok(header) => {
                list.push(header);
                assert(header_views(list@) =~= sofar.push(header@));
            },
            Err(error) => {
                proof {
                    lemma_headers_of_error(lines, i as int);
                }
                return Err(error);
            },
        }
        i += 1;
    }
    proof {
        assert(lines.take(i as int) =~= lines);
    }
    Ok(list)
}

/// Once the first `n` lines are refused, the whole list is refused with the same error.
pub proof fn lemma_headers_of_error(lines: Seq<Seq<char>>, n: int)
    requires
        0 <= n < lines.len(),
        headers_of(lines.take(n + 1)) is Err,
    ensures
        headers_of(lines) == headers_of(lines.take(n + 1)),
    decreases lines.len(),
{
    if n + 1 == lines.len() {
        assert(lines.take(n + 1) =~= lines);
    } else {
        let front = lines.drop_last();
        assert(front.take(n + 1) =~= lines.take(n + 1));
        lemma_headers_of_error(front, n);
    }
}

/// What is fixed for the whole of a crawl.
#[derive(Debug)]
pub struct CrawlConfig {
    /// How deep a page may lie and still have its links followed; the seed lies at depth 0.
    pub max_depth: u32,
    /// How many lines of the common-word dictionary are used.
    pub common_words_limit: usize,
    /// Whether links to other sites are followed.
    pub follow_offsite: bool,
    /// The least length of a counted word.
    pub min_length: usize,
    /// The user agent to send, if any.
    pub user_agent: Option<String>,
    /// Extra request headers, in the order in which they were given.
    pub headers: Vec<Header>,
}

impl CrawlConfig {
    /// Puts a configuration together. The header lines have to be of the shape
    /// `Name: Value`, and the user agent, if there is one, a valid header value.
    pub fn new(
        max_depth: u32,
        common_words_limit: usize,
        follow_offsite: bool,
        min_length: usize,
        user_agent: Option<String>,
        header_lines: &Vec<String>,
    ) -> (r: Result<CrawlConfig, ConfigError>)
        ensures
            match headers_of(crate::text::views(header_lines@)) {
                Err(e) => r matches Err(error) && error@ == e,
                Ok(hs) => match user_agent {
                    Some(agent) if !valid_header_value(agent@) => r matches Err(error) && error@
                        == ConfigErrorView::InvalidHeaderValue(agent@),
                    _ => r matches Ok(config) && config.max_depth == max_depth
                        && config.common_words_limit == common_words_limit
                        && config.follow_offsite == follow_offsite && config.min_length
                        == min_length && opt_view(config.user_agent) == opt_view(user_agent)
                        && header_views(config.headers@) == hs,
                },
            },
    {
        let headers = match headers_from_strings(header_lines) {
            Ok(headers) => headers,
            Err(error) => {
                return Err(error);
            },
        };
        match &user_agent {
            Some(agent) => {
                if !header_value_ok(agent.as_str()) {
                    return Err(ConfigError::InvalidHeaderValue(agent.clone()));
                }
            },
            None => {},
        }
        Ok(
            CrawlConfig {
                max_depth,
                common_words_limit,
                follow_offsite,
                min_length,
                user_agent,
                headers,
            },
        )
    }
}

/// The name under which a user agent is sent.
pub open spec fn user_agent_name() -> Seq<char> {
    "user-agent"@
}

/// Whether a header name is that of the user agent; capital and small letters are the same.
pub open spec fn is_user_agent(name: Seq<char>) -> bool {
    ascii_lowered(name) == user_agent_name()
}

/// The headers of a list that are not for the user agent, in the order of the list.
pub open spec fn without_user_agent(hs: Seq<HeaderView>) -> Seq<HeaderView>
    decreases hs.len(),
{
    if hs.len() == 0 {
        Seq::empty()
    } else {
        let front = without_user_agent(hs.drop_last());
        if is_user_agent(hs.last().name) {
            front
        } else {
            front.push(hs.last())
        }
    }
}

/// The headers that go into each request: the extra headers in the order in which they were
/// given, and, where a user agent is set, that user agent in place of any extra header of its
/// name.
pub open spec fn request_headers_of(hs: Seq<HeaderView>, agent: Option<Seq<char>>) -> Seq<
    HeaderView,
> {
    match agent {
        None => hs,
        Some(value) => without_user_agent(hs).push(
            HeaderView { name: user_agent_name(), value },
        ),
    }
}

/// Whether two names are the same but for the case of their ASCII letters.
pub fn same_name(a: &str, b: &str) -> (r: bool)
    ensures
        r == (ascii_lowered(a@) == ascii_lowered(b@)),
{
    let x = chars_of(a);
    let y = chars_of(b);
    if x.len() != y.len() {
        assert(ascii_lowered(a@).len() != ascii_lowered(b@).len());
        return false;
    }
    let mut i: usize = 0;
    while i < x.len()
        invariant
            i <= x.len(),
            x.len() == y.len(),
            x@ == a@,
            y@ == b@,
            forall|k: int| 0 <= k < i ==> ascii_lower(x@[k]) == ascii_lower(y@[k]),
        decreases x.len() - i,
    {
        let p = x[i];
        let q = y[i];
        let low_p = if p >= 'A' && p <= 'Z' {
            p as u32 + 32
        } else {
            p as u32
        };
        let low_q = if q >= 'A' && q <= 'Z' {
            q as u32 + 32
        } else {
            q as u32
        };
        assert(low_p == ascii_lower(p) as u32);
        assert(low_q == ascii_lower(q) as u32);
        if low_p != low_q {
            assert(ascii_lowered(a@)[i as int] != ascii_lowered(b@)[i as int]);
            return false;
        }
        i += 1;
    }
    assert(ascii_lowered(a@) =~= ascii_lowered(b@));
    true
}

/// The name of the user agent holds no capital letter.
proof fn lemma_user_agent_name()
    ensures
        ascii_lowered(user_agent_name()) == user_agent_name(),
{
    reveal_strlit("user-agent");
    assert(ascii_lowered(user_agent_name()) =~= user_agent_name());
}

/// Lists the headers that go into each request.
pub fn request_headers(config: &CrawlConfig) -> (out: Vec<Header>)
    ensures
        header_views(out@) == request_headers_of(
            header_views(config.headers@),
            opt_view(config.user_agent),
        ),
{
    let ghost hs = header_views(config.headers@);
    let mut out: Vec<Header> = Vec::new();
    let replace = config.user_agent.is_some();
    let mut i: usize = 0;
    proof {
        assert(hs.take(0) =~= Seq::<HeaderView>::empty());
        assert(header_views(out@) =~= Seq::<HeaderView>::empty());
    }
    while i < config.headers.len()
        invariant
            i <= config.headers@.len(),
            hs == header_views(config.headers@),
            replace == config.user_agent is Some,
            header_views(out@) == if replace {
                without_user_agent(hs.take(i as int))
            } else {
                hs.take(i as int)
            },
        decreases config.headers@.len() - i,
    {
        let ghost sofar = header_views(out@);
        let header = &config.headers[i];
        proof {
            lemma_user_agent_name();
            assert(hs.take(i + 1).drop_last() =~= hs.take(i as int));
            assert(hs.take(i + 1).last() == header@);
            assert(hs.take(i + 1) =~= hs.take(i as int).push(header@));
        }
        if !(replace && same_name(header.name.as_str(), "user-agent")) {
            out.push(Header { name: header.name.clone(), value: header.value.clone() });
            assert(header_views(out@) =~= sofar.push(header@));
        }
        i += 1;
    }
    proof {
        assert(hs.take(i as int) =~= hs);
    }
    match &config.user_agent {
        Some(agent) => {
            let ghost sofar = header_views(out@);
            let name = "user-agent".to_owned();
            out.push(Header { name, value: agent.clone() });
            assert(header_views(out@) =~= sofar.push(
                HeaderView { name: user_agent_name(), value: agent@ },
            ));
        },
        None => {},
    }
    out
}

} // verus!
