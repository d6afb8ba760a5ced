use harvest::extract::{count_page, extract, outbound_links, Element};
use harvest::link::{follows, same_host};
use harvest::page::{is_content_tag, read_page, try_read_page, MAX_PAGE_LEN};
use harvest::words::CommonWords;

fn element(text: &str, links: &[&str]) -> Element {
    Element { text: text.to_string(), links: links.iter().map(|l| l.to_string()).collect() }
}

fn texts(page: &[Element]) -> Vec<&str> {
    page.iter().map(|e| e.text.as_str()).collect()
}

#[test]
fn content_tags_are_the_allow_list() {
    for tag in [
        "h1", "h2", "h3", "h4", "h5", "h6", "p", "li", "dt", "dd", "blockquote", "q", "cite",
        "caption", "th", "td", "pre", "code", "strong", "em", "mark", "small", "del", "ins", "sub",
        "sup", "a",
    ] {
        assert!(is_content_tag(tag), "{}", tag);
    }
    for tag in ["div", "span", "script", "style", "body", "html", "ul", "table", "H1", "", "b", "i"] {
        assert!(!is_content_tag(tag), "{}", tag);
    }
}

#[test]
fn page_lists_content_elements_in_document_order() {
    let page = read_page(
        "<html><head><title>skip</title><style>p { color: red }</style></head>\
         <body><h1>Head</h1><div>loose <p>para</p></div><script>var x;</script>\
         <ul><li>item</li></ul><span>span</span></body></html>",
    );
    assert_eq!(texts(&page), vec!["Head", "para", "item"]);
    assert!(page.iter().all(|e| e.links.is_empty()));
}

#[test]
fn nested_content_is_read_once_with_the_outermost_element() {
    let page = read_page("<p>outer <em>inner</em> tail</p>");
    assert_eq!(texts(&page), vec!["outer inner tail"]);
    let page = read_page(
        "<ul><li><p>deep <a href=\"/x\">link</a></p></li></ul>\
         <table><tr><td><span>wrapped <code>code</code></span></td></tr></table><em>alone</em>",
    );
    assert_eq!(texts(&page), vec!["deep link", "wrapped code", "alone"]);
    assert_eq!(page[0].links, vec!["/x"]);
    assert!(page[1].links.is_empty());
}

#[test]
fn anchors_are_listed_with_the_elements_that_hold_them() {
    let page = read_page(
        "<p>see <a href=\"/one\">one</a> and <a href=\"two\">two</a><a>none</a></p>\
         <div><a href=\"/bare\">bare</a></div><li><link href=\"/sheet\"><b href=\"/bold\">x</b></li>",
    );
    assert_eq!(texts(&page), vec!["see one and twonone", "bare", "x"]);
    assert_eq!(page[0].links, vec!["/one", "two"]);
    assert_eq!(page[1].links, vec!["/bare"]);
    assert!(page[2].links.is_empty());
}

#[test]
fn empty_document_has_no_elements() {
    assert!(read_page("").is_empty());
    assert!(read_page("just text").is_empty());
}

#[test]
fn links_are_resolved_against_the_page() {
    let page = vec![
        element("", &["/root", "leaf", "../up", "?q=1", "#top", "http://other.test/x", "//cdn.test/y"]),
    ];
    assert_eq!(
        outbound_links(&page, "http://site.test/dir/page.html"),
        vec![
            "http://site.test/root",
            "http://site.test/dir/leaf",
            "http://site.test/up",
            "http://site.test/dir/page.html?q=1",
            "http://site.test/dir/page.html#top",
            "http://other.test/x",
            "http://cdn.test/y",
        ]
    );
}

#[test]
fn links_are_listed_once_in_order_of_appearance() {
    let page = vec![
        element("", &["/b", "/a", "/b"]),
        element("", &["a", "/c", "http://site.test/b"]),
    ];
    assert_eq!(
        outbound_links(&page, "http://site.test/"),
        vec!["http://site.test/b", "http://site.test/a", "http://site.test/c"]
    );
}

#[test]
fn links_that_do_not_resolve_are_dropped() {
    let page = vec![element("", &["http://[broken", "/fine", "http://"])];
    assert_eq!(outbound_links(&page, "http://site.test/"), vec!["http://site.test/fine"]);
    // Against a base that is no absolute URL nothing resolves.
    assert!(outbound_links(&page, "not a base").is_empty());
    assert!(outbound_links(&vec![element("", &["/x"])], "/relative").is_empty());
}

#[test]
fn page_counts_are_those_of_its_elements() {
    let page = vec![element("Quick Quick fox", &[]), element("", &["/b"]), element("fox jumps", &[])];
    let table = count_page(&page, 3, &CommonWords::none());
    assert_eq!(table.get(&"quick".to_string()), 2);
    assert_eq!(table.get(&"fox".to_string()), 2);
    assert_eq!(table.get(&"jumps".to_string()), 1);
    assert_eq!(table.len(), 3);
    assert_eq!(count_page(&Vec::new(), 3, &CommonWords::none()).len(), 0);
}

#[test]
fn extract_gives_counts_and_links() {
    let page = vec![element("Hello hello world", &["next", "next"]), element("world", &["/last"])];
    let (table, links) = extract(&page, "http://site.test/a/", 5, &CommonWords::none());
    assert_eq!(table.get(&"hello".to_string()), 2);
    assert_eq!(table.get(&"world".to_string()), 2);
    assert_eq!(table.len(), 2);
    assert_eq!(links, vec!["http://site.test/a/next", "http://site.test/last"]);
}

#[test]
fn scope_rule_compares_hosts() {
    assert!(follows(false, "http://site.test/a", "http://site.test/b"));
    assert!(follows(false, "http://site.test/a", "https://site.test:8080/b"));
    assert!(!follows(false, "http://site.test/a", "http://other.test/"));
    assert!(!follows(false, "http://site.test/a", "http://www.site.test/"));
    assert!(follows(true, "http://site.test/a", "http://other.test/"));
    assert!(follows(true, "http://site.test/a", "mailto:someone@other.test"));
    // An address is a host like a name: the same address is the same site, another is not.
    assert!(follows(false, "http://10.0.0.1/a", "http://10.0.0.1/b"));
    assert!(follows(false, "http://10.0.0.1/a", "https://10.0.0.1:8443/b"));
    assert!(!follows(false, "http://10.0.0.1/", "http://10.0.0.2/"));
    assert!(!follows(false, "http://127.0.0.1/a", "http://site.test/"));
    assert!(follows(false, "http://[::1]/a", "http://[::1]/b"));
    assert!(!follows(false, "http://[::1]/a", "http://[::2]/b"));
    // A URL without a host lies on no site, whatever the page.
    assert!(!follows(false, "http://site.test/", "mailto:someone@site.test"));
    assert!(!follows(false, "http://10.0.0.1/", "mailto:someone@10.0.0.1"));
    assert!(!follows(false, "mailto:a@site.test", "mailto:b@site.test"));
    assert!(!follows(false, "data:text/plain,one", "data:text/plain,one"));
    assert!(!follows(false, "not a url", "not a url"));
    assert!(follows(true, "http://10.0.0.1/", "http://10.0.0.2/"));
}

#[test]
fn hosts_are_the_same_when_both_are_present_and_equal() {
    let a = Some("site.test".to_string());
    let b = Some("other.test".to_string());
    assert!(same_host(&a, &a.clone()));
    assert!(!same_host(&a, &b));
    assert!(!same_host(&a, &None));
    assert!(!same_host(&None, &b));
    assert!(!same_host(&None, &None));
}

#[test]
fn page_within_the_length_limit_is_read() {
    assert_eq!(MAX_PAGE_LEN, 0x3fff_ffff);
    let html = "<p>caf\u{e9} <a href=\"/x\">here</a></p>";
    let page = try_read_page(html).expect("a short page");
    let same = read_page(html);
    assert_eq!(texts(&page), texts(&same));
    assert_eq!(texts(&page), vec!["caf\u{e9} here"]);
    assert_eq!(page[0].links, vec!["/x"]);
    assert!(try_read_page("").expect("an empty page").is_empty());
    // The limit counts characters, not bytes.
    let wide = format!("<p>{}</p>", "\u{1f98a}".repeat(1000));
    assert_eq!(try_read_page(&wide).expect("a page of wide characters").len(), 1);
}

#[test]
fn page_beyond_the_length_limit_is_not_read() {
    let long = "a".repeat(MAX_PAGE_LEN + 1);
    assert!(try_read_page(&long).is_none());
}
