//! A bounded-depth web crawler that counts the less common words of a site.
//!
//! The crawl starts at a seed URL and follows the links of each page it reads, depth first,
//! never deeper than one link below a given depth and never to a URL it has asked for before.
//! The text of each page is split into tokens, the tokens are held against a token policy and
//! a dictionary of common words, and what passes is counted into one frequency table, which is
//! ranked into a report at the end.
//!
//! The library fetches nothing itself. [`crawl::Crawl`] hands out the URL of the page it wants
//! next and is told what came back, a page or a failure; the caller does the fetching.
//!
//! - [`crawl`]: the driver, its states and the laws that hold of every crawl
//! - [`extract`]: from the content elements of a page to its word counts and outbound links
//! - [`page`]: from the text of an HTML page to its content elements
//! - [`words`]: the common-word dictionary and the token policy
//! - [`frequency`]: the frequency table and the merging of tables
//! - [`link`]: absolute URLs, the resolution of links, and the scope rule
//! - [`report`]: the ranking of a table and the text of the report
//! - [`config`]: the configuration of a crawl and its extra request headers
//! - [`error`]: what can go wrong
//! - [`index`]: the list of distinct texts behind the table, the dictionary and the visited set
//! - [`text`]: the string primitives under the tokeniser

pub mod config;
pub mod crawl;
pub mod error;
pub mod extract;
pub mod frequency;
pub mod index;
pub mod link;
pub mod page;
pub mod report;
pub mod text;
pub mod words;
