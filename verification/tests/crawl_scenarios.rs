use harvest::config::CrawlConfig;
use harvest::crawl::Crawl;
use harvest::error::CrawlError;
use harvest::frequency::WordFrequency;
use harvest::page::{read_page, try_read_page};
use harvest::words::CommonWords;

fn config(max_depth: u32, follow_offsite: bool, min_length: usize) -> CrawlConfig {
    CrawlConfig {
        max_depth,
        common_words_limit: 1000,
        follow_offsite,
        min_length,
        user_agent: None,
        headers: Vec::new(),
    }
}

/// Runs a crawl over pages held in memory. A URL that is not in `web` fails to fetch.
/// Returns the URLs that were fetched, each with its depth, and how the crawl ended.
fn try_crawl_web(
    seed: &str,
    config: &CrawlConfig,
    common: CommonWords,
    web: &[(&str, &str)],
) -> (Vec<(String, u64)>, Result<WordFrequency, CrawlError>) {
    let mut crawl = Crawl::start(seed, config, common).expect("the seed is an absolute URL");
    let mut fetched = Vec::new();
    while let Some(url) = crawl.next_url() {
        let depth = crawl.current().expect("a page is current").depth;
        fetched.push((url.clone(), depth));
        assert!(fetched.len() <= 1000, "the crawl does not end");
        match web.iter().find(|(at, _)| *at == url) {
            Some((_, html)) => match try_read_page(html) {
                Some(page) => crawl.record_page(&page),
                None => crawl.record_failure(format!("page too long at {}", url)),
            },
            None => crawl.record_failure(format!("no page at {}", url)),
        }
    }
    assert_eq!(crawl.visited_len(), fetched.len());
    (fetched, crawl.finish())
}

/// As `try_crawl_web`, for a crawl whose seed can be fetched.
fn crawl_web(
    seed: &str,
    config: &CrawlConfig,
    common: CommonWords,
    web: &[(&str, &str)],
) -> (Vec<(String, u64)>, WordFrequency) {
    let (fetched, result) = try_crawl_web(seed, config, common, web);
    (fetched, result.expect("the seed was fetched"))
}

fn urls(fetched: &[(String, u64)]) -> Vec<&str> {
    fetched.iter().map(|(url, _)| url.as_str()).collect()
}

fn count(table: &WordFrequency, word: &str) -> u32 {
    table.get(&word.to_string())
}

#[test]
fn two_pages_are_counted_together() {
    let web = [
        ("http://site.test/", "<p>Quick Quick fox</p><a href=\"/b\"></a>"),
        ("http://site.test/b", "<p>fox jumps</p>"),
    ];
    let (fetched, table) =
        crawl_web("http://site.test/", &config(1, false, 3), CommonWords::none(), &web);
    assert_eq!(urls(&fetched), vec!["http://site.test/", "http://site.test/b"]);
    assert_eq!(count(&table, "quick"), 2);
    assert_eq!(count(&table, "fox"), 2);
    assert_eq!(count(&table, "jumps"), 1);
    assert_eq!(table.len(), 3);
}

#[test]
fn self_loop_counts_the_seed_once() {
    let web = [("http://site.test/", "<p>alpha beta <a href=\"/\">home</a></p>")];
    let (fetched, table) =
        crawl_web("http://site.test/", &config(5, false, 1), CommonWords::none(), &web);
    assert_eq!(urls(&fetched), vec!["http://site.test/"]);
    assert_eq!(count(&table, "alpha"), 1);
    assert_eq!(count(&table, "beta"), 1);
    assert_eq!(count(&table, "home"), 1);
    assert_eq!(table.len(), 3);
}

#[test]
fn cycle_ends_whatever_the_depth() {
    let web = [
        ("http://site.test/a", "<p>one <a href=\"/b\"></a></p>"),
        ("http://site.test/b", "<p>two <a href=\"/a\"></a></p>"),
    ];
    let (fetched, table) =
        crawl_web("http://site.test/a", &config(u32::MAX, false, 1), CommonWords::none(), &web);
    assert_eq!(urls(&fetched), vec!["http://site.test/a", "http://site.test/b"]);
    assert_eq!(count(&table, "one"), 1);
    assert_eq!(count(&table, "two"), 1);
}

#[test]
fn depth_zero_expands_the_seed_only() {
    let web = [
        ("http://site.test/", "<p>seed <a href=\"/b\"></a></p>"),
        ("http://site.test/b", "<p>second <a href=\"/c\"></a></p>"),
        ("http://site.test/c", "<p>third</p>"),
    ];
    let (fetched, table) =
        crawl_web("http://site.test/", &config(0, false, 1), CommonWords::none(), &web);
    // The seed lies at depth 0, which is not deeper than `max_depth`: its links are followed.
    // The page behind them lies at depth 1: it is read, and its links are left alone.
    assert_eq!(
        fetched,
        vec![("http://site.test/".to_string(), 0), ("http://site.test/b".to_string(), 1)]
    );
    assert_eq!(count(&table, "seed"), 1);
    assert_eq!(count(&table, "second"), 1);
    assert_eq!(count(&table, "third"), 0);
}

#[test]
fn no_page_lies_deeper_than_one_below_max_depth() {
    let web = [
        ("http://site.test/0", "<a href=\"/1\"></a>"),
        ("http://site.test/1", "<a href=\"/2\"></a>"),
        ("http://site.test/2", "<a href=\"/3\"></a>"),
        ("http://site.test/3", "<a href=\"/4\"></a>"),
        ("http://site.test/4", "<a href=\"/5\"></a>"),
    ];
    let (fetched, _) =
        crawl_web("http://site.test/0", &config(2, false, 1), CommonWords::none(), &web);
    assert_eq!(
        fetched,
        vec![
            ("http://site.test/0".to_string(), 0),
            ("http://site.test/1".to_string(), 1),
            ("http://site.test/2".to_string(), 2),
            ("http://site.test/3".to_string(), 3),
        ]
    );
}

#[test]
fn each_url_is_fetched_once() {
    // A diamond: both b and c link to d, and d links back to the seed.
    let web = [
        ("http://site.test/", "<p><a href=\"/b\"></a><a href=\"/c\"></a></p>"),
        ("http://site.test/b", "<p>left <a href=\"/d\"></a></p>"),
        ("http://site.test/c", "<p>right <a href=\"/d\"></a></p>"),
        ("http://site.test/d", "<p>bottom <a href=\"/\"></a></p>"),
    ];
    let (fetched, table) =
        crawl_web("http://site.test/", &config(10, false, 1), CommonWords::none(), &web);
    // Depth first: b and what lies below it come before c.
    assert_eq!(
        urls(&fetched),
        vec!["http://site.test/", "http://site.test/b", "http://site.test/d", "http://site.test/c"]
    );
    assert_eq!(count(&table, "bottom"), 1);
    assert_eq!(count(&table, "left"), 1);
    assert_eq!(count(&table, "right"), 1);
}

#[test]
fn links_are_followed_in_page_order() {
    let web = [
        ("http://site.test/", "<ul><li><a href=\"x\"></a></li><li><a href=\"y\"></a></li><li><a href=\"z\"></a></li></ul>"),
        ("http://site.test/x", "<p>ex</p>"),
        ("http://site.test/y", "<p>why</p>"),
        ("http://site.test/z", "<p>zed</p>"),
    ];
    let (fetched, _) =
        crawl_web("http://site.test/", &config(1, false, 1), CommonWords::none(), &web);
    assert_eq!(
        urls(&fetched),
        vec!["http://site.test/", "http://site.test/x", "http://site.test/y", "http://site.test/z"]
    );
}

#[test]
fn offsite_links_are_left_alone_on_site() {
    let web = [
        ("http://site.test/", "<p>here <a href=\"http://other.test/\"></a><a href=\"/in\"></a></p>"),
        ("http://site.test/in", "<p>inside</p>"),
        ("http://other.test/", "<p>elsewhere</p>"),
    ];
    let (fetched, table) =
        crawl_web("http://site.test/", &config(3, false, 1), CommonWords::none(), &web);
    assert_eq!(urls(&fetched), vec!["http://site.test/", "http://site.test/in"]);
    assert_eq!(count(&table, "elsewhere"), 0);
    assert_eq!(count(&table, "inside"), 1);
}

#[test]
fn offsite_links_are_followed_when_allowed() {
    let web = [
        ("http://site.test/", "<p>here <a href=\"http://other.test/\"></a><a href=\"/in\"></a></p>"),
        ("http://site.test/in", "<p>inside</p>"),
        ("http://other.test/", "<p>elsewhere</p>"),
    ];
    let (fetched, table) =
        crawl_web("http://site.test/", &config(3, true, 1), CommonWords::none(), &web);
    assert_eq!(
        urls(&fetched),
        vec!["http://site.test/", "http://other.test/", "http://site.test/in"]
    );
    assert_eq!(count(&table, "elsewhere"), 1);
    assert_eq!(count(&table, "inside"), 1);
}

#[test]
fn subdomain_is_another_site() {
    let web = [
        ("http://site.test/", "<a href=\"/in\"></a>"),
        ("http://site.test/in", "<a href=\"http://sub.site.test/\"></a>"),
        ("http://sub.site.test/", "<p>subdomain</p>"),
    ];
    let (fetched, _) =
        crawl_web("http://site.test/", &config(5, false, 1), CommonWords::none(), &web);
    assert_eq!(urls(&fetched), vec!["http://site.test/", "http://site.test/in"]);
}

#[test]
fn scope_is_judged_against_the_page_that_holds_the_link() {
    // Once the crawl has left the seed's site, a link back to the seed's site is off site for
    // the page that holds it, and a link within the other site is on site.
    let web = [
        ("http://other.test/", "<a href=\"/more\"></a><a href=\"http://site.test/back\"></a>"),
        ("http://other.test/more", "<p>more</p>"),
        ("http://site.test/back", "<p>back</p>"),
    ];
    let mut crawl =
        Crawl::start("http://site.test/", &config(5, false, 1), CommonWords::none()).unwrap();
    assert_eq!(crawl.next_url(), Some("http://site.test/".to_string()));
    crawl.record_page(&read_page("<a href=\"/in\"></a>"));
    assert_eq!(crawl.next_url(), Some("http://site.test/in".to_string()));
    crawl.record_failure("gone".to_string());
    assert_eq!(crawl.next_url(), None);
    assert!(crawl.finish().is_ok());
    let (fetched, _) =
        crawl_web("http://other.test/", &config(5, false, 1), CommonWords::none(), &web);
    assert_eq!(urls(&fetched), vec!["http://other.test/", "http://other.test/more"]);
}

#[test]
fn failed_fetch_adds_nothing_and_siblings_go_on() {
    let web = [
        ("http://site.test/", "<p>top <a href=\"/gone\"></a><a href=\"/there\"></a></p>"),
        ("http://site.test/there", "<p>found</p>"),
    ];
    let (fetched, table) =
        crawl_web("http://site.test/", &config(2, false, 1), CommonWords::none(), &web);
    assert_eq!(
        urls(&fetched),
        vec!["http://site.test/", "http://site.test/gone", "http://site.test/there"]
    );
    assert_eq!(count(&table, "top"), 1);
    assert_eq!(count(&table, "found"), 1);
    assert_eq!(table.len(), 2);
}

#[test]
fn failed_seed_fails_the_crawl() {
    let (fetched, result) =
        try_crawl_web("http://site.test/", &config(2, false, 1), CommonWords::none(), &[]);
    assert_eq!(urls(&fetched), vec!["http://site.test/"]);
    match result {
        Err(CrawlError::FetchError(reason)) => assert_eq!(reason, "no page at http://site.test/"),
        Err(other) => panic!("another error: {:?}", other),
        Ok(_) => panic!("the crawl went through"),
    }
}

#[test]
fn seed_has_to_be_an_absolute_url() {
    for seed in ["not a url", "/relative/path", "", "//site.test/"] {
        match Crawl::start(seed, &config(1, false, 1), CommonWords::none()) {
            Err(CrawlError::InvalidUrl(text)) => assert_eq!(text, seed),
            Err(other) => panic!("another error: {:?}", other),
            Ok(_) => panic!("accepted {:?}", seed),
        }
    }
}

#[test]
fn seed_is_put_into_its_normal_form() {
    let mut crawl =
        Crawl::start("HTTP://Site.TEST", &config(1, false, 1), CommonWords::none()).unwrap();
    assert_eq!(crawl.pending_len(), 1);
    assert_eq!(crawl.visited_len(), 0);
    assert_eq!(crawl.next_url(), Some("http://site.test/".to_string()));
    assert!(crawl.has_visited(&"http://site.test/".to_string()));
    assert!(!crawl.has_visited(&"HTTP://Site.TEST".to_string()));
    assert_eq!(crawl.pending_len(), 0);
    crawl.record_failure("unreachable".to_string());
    assert!(crawl.current().is_none());
    assert_eq!(crawl.next_url(), None);
    assert_eq!(crawl.next_url(), None);
    assert!(matches!(crawl.finish(), Err(CrawlError::FetchError(reason)) if reason == "unreachable"));
}

#[test]
fn same_page_under_two_spellings_is_fetched_once() {
    let web = [
        ("http://site.test/", "<a href=\"/a/../b\"></a><a href=\"b\"></a><a href=\"http://SITE.test/b\"></a>"),
        ("http://site.test/b", "<p>once</p>"),
    ];
    let (fetched, table) =
        crawl_web("http://site.test/", &config(2, false, 1), CommonWords::none(), &web);
    assert_eq!(urls(&fetched), vec!["http://site.test/", "http://site.test/b"]);
    assert_eq!(count(&table, "once"), 1);
}

#[test]
fn common_word_is_never_counted() {
    let mut body = String::from("<p>");
    for _ in 0..1000 {
        body.push_str("the The THE ");
    }
    body.push_str("rare</p>");
    let web = [("http://site.test/", body.as_str())];
    let common = CommonWords::from_text("the\nof\nand\n", 1000);
    let (_, table) = crawl_web("http://site.test/", &config(1, false, 1), common, &web);
    assert_eq!(count(&table, "the"), 0);
    assert_eq!(count(&table, "rare"), 1);
    assert_eq!(table.len(), 1);
}

#[test]
fn short_word_is_never_counted() {
    let web = [("http://site.test/", "<p>a ab abc abcd abcde abcd</p>")];
    let (_, table) =
        crawl_web("http://site.test/", &config(1, false, 4), CommonWords::none(), &web);
    assert_eq!(count(&table, "a"), 0);
    assert_eq!(count(&table, "ab"), 0);
    assert_eq!(count(&table, "abc"), 0);
    assert_eq!(count(&table, "abcd"), 2);
    assert_eq!(count(&table, "abcde"), 1);
    assert_eq!(table.len(), 2);
}

#[test]
fn outcome_without_a_current_page_changes_nothing() {
    let mut crawl =
        Crawl::start("http://site.test/", &config(1, false, 1), CommonWords::none()).unwrap();
    crawl.record_page(&read_page("<p>stray <a href=\"/x\"></a></p>"));
    assert_eq!(crawl.pending_len(), 1);
    crawl.record_failure("stray".to_string());
    assert_eq!(crawl.counts().len(), 0);
    assert_eq!(crawl.next_url(), Some("http://site.test/".to_string()));
    crawl.record_page(&read_page("<p>seed</p>"));
    assert_eq!(crawl.finish().unwrap().get(&"seed".to_string()), 1);
}

#[test]
fn larger_site_is_crawled_page_by_page() {
    let pages: Vec<(String, String)> = (0..300)
        .map(|i| {
            let mut html = String::from("<p>");
            for w in 0..50 {
                html.push_str(&format!("word{} shared ", "abcdefghij".repeat(1 + (i + w) % 7)));
            }
            html.push_str("</p><ul>");
            for next in [i + 1, i * 2, i * 3 + 1] {
                html.push_str(&format!("<li><a href=\"/page/{}\">next</a></li>", next % 300));
            }
            html.push_str("</ul>");
            (format!("http://site.test/page/{}", i), html)
        })
        .collect();
    let web: Vec<(&str, &str)> = pages.iter().map(|(u, h)| (u.as_str(), h.as_str())).collect();
    let mut crawl =
        Crawl::start("http://site.test/page/0", &config(1000, false, 4), CommonWords::none())
            .unwrap();
    let mut fetched = 0;
    while let Some(url) = crawl.next_url() {
        fetched += 1;
        let (_, html) = web.iter().find(|(at, _)| *at == url).expect("a page of the site");
        crawl.record_page(&read_page(html));
    }
    assert_eq!(fetched, 300);
    assert_eq!(crawl.visited_len(), 300);
    let table = crawl.finish().unwrap();
    assert_eq!(count(&table, "shared"), 300 * 50);
    assert_eq!(count(&table, "next"), 300 * 3);
    assert_eq!(table.len(), 2 + 7);
}

#[test]
fn link_to_another_address_is_not_followed() {
    let web = [
        ("http://10.0.0.1/", "<p>fox</p><a href=\"http://10.0.0.2/\"></a>"),
        ("http://10.0.0.2/", "<p>fox</p>"),
    ];
    let (fetched, table) =
        crawl_web("http://10.0.0.1/", &config(1, false, 3), CommonWords::none(), &web);
    assert_eq!(urls(&fetched), vec!["http://10.0.0.1/"]);
    assert_eq!(count(&table, "fox"), 1);
}

#[test]
fn links_on_the_same_address_are_followed() {
    let web = [
        ("http://10.0.0.1/", "<p>fox</p><a href=\"/den\"></a><a href=\"mailto:fox@10.0.0.1\"></a>"),
        ("http://10.0.0.1/den", "<p>cubs</p>"),
    ];
    let (fetched, table) =
        crawl_web("http://10.0.0.1/", &config(1, false, 3), CommonWords::none(), &web);
    assert_eq!(urls(&fetched), vec!["http://10.0.0.1/", "http://10.0.0.1/den"]);
    assert_eq!(count(&table, "cubs"), 1);
}
