//! What can go wrong in a crawl.

use vstd::prelude::*;
use vstd::string::StringExecFns;

verus! {

/// Why a configuration was refused.
#[derive(Debug)]
pub enum ConfigError {
    /// A header line that is not of the shape `Name: Value`; holds the line.
    MalformedHeader(String),
    /// A header whose name is no valid header name; holds the name.
    InvalidHeaderName(String),
    /// A header, or a user agent, whose value is no valid header value; holds the value.
    InvalidHeaderValue(String),
}

/// A configuration error as plain values.
pub enum ConfigErrorView {
    MalformedHeader(Seq<char>),
    InvalidHeaderName(Seq<char>),
    InvalidHeaderValue(Seq<char>),
}

impl ConfigError {
    /// The error as plain values.
    pub open spec fn view(&self) -> ConfigErrorView {
        match self {
            ConfigError::MalformedHeader(line) => ConfigErrorView::MalformedHeader(line@),
            ConfigError::InvalidHeaderName(name) => ConfigErrorView::InvalidHeaderName(name@),
            ConfigError::InvalidHeaderValue(value) => ConfigErrorView::InvalidHeaderValue(value@),
        }
    }
}

/// Why a crawl, or one branch of it, came to nothing.
#[derive(Debug)]
pub enum CrawlError {
    /// A URL that does not parse as an absolute URL; holds the text.
    InvalidUrl(String),
    /// A page that could not be fetched; holds the reason.
    FetchError(String),
    /// The common-word dictionary is missing or unreadable; holds the reason.
    ResourceError(String),
    /// The configuration was refused.
    ConfigError(ConfigError),
}

impl ConfigError {
    /// What to tell the user: what was wrong, and the text that was refused.
    pub open spec fn message_view(&self) -> Seq<char> {
        match self {
            ConfigError::MalformedHeader(line) => "Invalid header format: "@ + line@,
            ConfigError::InvalidHeaderName(name) => "Invalid header name: "@ + name@,
            ConfigError::InvalidHeaderValue(value) => "Invalid header value: "@ + value@,
        }
    }

    /// The message for the user.
    pub fn message(&self) -> (text: String)
        ensures
            text@ == self.message_view(),
    {
        match self {
            ConfigError::MalformedHeader(line) => String::from_str("Invalid header format: ").concat(
                line.as_str(),
            ),
            ConfigError::InvalidHeaderName(name) => String::from_str("Invalid header name: ").concat(
                name.as_str(),
            ),
            ConfigError::InvalidHeaderValue(value) => String::from_str(
                "Invalid header value: ",
            ).concat(value.as_str()),
        }
    }
}

impl CrawlError {
    /// What to tell the user: the kind of the error, and what it holds.
    pub open spec fn message_view(&self) -> Seq<char> {
        match self {
            CrawlError::InvalidUrl(text) => "Invalid URL: "@ + text@,
            CrawlError::FetchError(reason) => "Fetch failed: "@ + reason@,
            CrawlError::ResourceError(reason) => "Resource unavailable: "@ + reason@,
            CrawlError::ConfigError(error) => error.message_view(),
        }
    }

    /// The message for the user.
    pub fn message(&self) -> (text: String)
        ensures
            text@ == self.message_view(),
    {
        match self {
            CrawlError::InvalidUrl(text) => String::from_str("Invalid URL: ").concat(text.as_str()),
            CrawlError::FetchError(reason) => String::from_str("Fetch failed: ").concat(
                reason.as_str(),
            ),
            CrawlError::ResourceError(reason) => String::from_str("Resource unavailable: ").concat(
                reason.as_str(),
            ),
            CrawlError::ConfigError(error) => error.message(),
        }
    }

    /// Whether the error ends the whole run. An unusable dictionary or configuration does; a
    /// URL that does not parse, or a page that cannot be fetched, ends only its own branch.
    pub open spec fn is_fatal(&self) -> bool {
        self is ResourceError || self is ConfigError
    }

    /// Decides whether the error ends the whole run.
    pub fn fatal(&self) -> (r: bool)
        ensures
            r == self.is_fatal(),
    {
        match self {
            CrawlError::InvalidUrl(_) => false,
            CrawlError::FetchError(_) => false,
            CrawlError::ResourceError(_) => true,
            CrawlError::ConfigError(_) => true,
        }
    }
}

} // verus!
