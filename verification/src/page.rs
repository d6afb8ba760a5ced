//! From the text of an HTML page to its content elements.

use vstd::prelude::*;
use vstd::string::StrSliceExecFns;
use select::document::Document;
use crate::extract::{page_view, Element, ElementView};
use crate::text::{opt_view, views};

verus! {

/// A parsed HTML document of the `select` crate: its nodes, in document order.
#[verifier::external_type_specification]
#[verifier::external_body]
pub struct ExDocument(Document);

/// What is read of one node of a parsed document.
pub struct NodeView {
    /// The tag name of an element; `None` for text and comments.
    pub name: Option<Seq<char>>,
    /// The text of the node and of everything below it.
    pub text: Seq<char>,
    /// The attributes of an element, each name with its value.
    pub attrs: Map<Seq<char>, Seq<char>>,
    /// The position of the node that holds this one; `None` at the top of the document.
    pub parent: Option<int>,
    /// The positions of the nodes below this one, in document order.
    pub below: Seq<int>,
}

/// The nodes that a parsed document holds, in document order.
pub uninterp spec fn document_nodes(doc: Document) -> Seq<NodeView>;

/// The nodes of the document that the text `html` parses to.
pub uninterp spec fn parsed_html(html: Seq<char>) -> Seq<NodeView>;

/// The longest text that is read as a page, in characters.
pub const MAX_PAGE_LEN: usize = 0x3fff_ffff;

/// `Document::from` on a string slice: the document holds the nodes that `html` parses to.
/// The parser keeps the text in a buffer whose length is a 32-bit number and stops the program
/// where the text does not fit. A text of no more than `MAX_PAGE_LEN` characters has fewer
/// bytes than that, also where each character is written as a longer one.
#[verifier::external_body]
pub(crate) fn parse_html(html: &str) -> (doc: Document)
    requires
        html@.len() <= MAX_PAGE_LEN,
    ensures
        document_nodes(doc) == parsed_html(html@),
{
    Document::from(html)
}

/// The length of the public field `nodes` of a `Document`: the number of its nodes.
#[verifier::external_body]
pub(crate) fn node_count(doc: &Document) -> (n: usize)
    ensures
        n == document_nodes(*doc).len(),
{
    doc.nodes.len()
}

/// `Node::name` on the node at `i`: the tag name of an element, `None` for another node.
#[verifier::external_body]
pub(crate) fn node_name(doc: &Document, i: usize) -> (r: Option<String>)
    requires
        i < document_nodes(*doc).len(),
    ensures
        opt_view(r) == document_nodes(*doc)[i as int].name,
{
    doc.nth(i).unwrap().name().map(String::from)
}

/// `Node::text` on the node at `i`: the text of the node and of everything below it.
#[verifier::external_body]
pub(crate) fn node_text(doc: &Document, i: usize) -> (r: String)
    requires
        i < document_nodes(*doc).len(),
    ensures
        r@ == document_nodes(*doc)[i as int].text,
{
    doc.nth(i).unwrap().text()
}

/// `Node::attr` on the node at `i`: the value of the attribute `name`, `None` where the node
/// has no such attribute.
#[verifier::external_body]
pub(crate) fn node_attr(doc: &Document, i: usize, name: &str) -> (r: Option<String>)
    requires
        i < document_nodes(*doc).len(),
    ensures
        opt_view(r) == attr_of(document_nodes(*doc)[i as int], name@),
{
    doc.nth(i).unwrap().attr(name).map(String::from)
}

/// `Node::parent` on the node at `i`, the node given by its position: the node that holds the
/// node at `i`, `None` where no node holds it.
#[verifier::external_body]
pub(crate) fn node_parent(doc: &Document, i: usize) -> (r: Option<usize>)
    requires
        i < document_nodes(*doc).len(),
    ensures
        match r {
            Some(p) => document_nodes(*doc)[i as int].parent == Some(p as int),
            None => document_nodes(*doc)[i as int].parent is None,
        },
{
    doc.nth(i).unwrap().parent().map(|p| p.index())
}

/// `Node::descendants` on the node at `i`, each node given by its position: the nodes below the
/// node, in document order. Each position is one of a node of the document.
#[verifier::external_body]
pub(crate) fn node_descendants(doc: &Document, i: usize) -> (r: Vec<usize>)
    requires
        i < document_nodes(*doc).len(),
    ensures
        r@.len() == document_nodes(*doc)[i as int].below.len(),
        forall|k: int|
            0 <= k < r@.len() ==> #[trigger] r@[k] == document_nodes(*doc)[i as int].below[k]
                && r@[k] < document_nodes(*doc).len(),
{
    doc.nth(i).unwrap().descendants().map(|n| n.index()).collect()
}

/// The value of the attribute `name` of a node, if it has that attribute.
pub open spec fn attr_of(node: NodeView, name: Seq<char>) -> Option<Seq<char>> {
    if node.attrs.dom().contains(name) {
        Some(node.attrs[name])
    } else {
        None
    }
}

/// The tags whose elements carry content: headings, paragraphs, list items, table cells,
/// quotations, code, emphasis and anchors.
pub open spec fn content_tag(name: Seq<char>) -> bool {
    ||| name == "h1"@
    ||| name == "h2"@
    ||| name == "h3"@
    ||| name == "h4"@
    ||| name == "h5"@
    ||| name == "h6"@
    ||| name == "p"@
    ||| name == "li"@
    ||| name == "dt"@
    ||| name == "dd"@
    ||| name == "blockquote"@
    ||| name == "q"@
    ||| name == "cite"@
    ||| name == "caption"@
    ||| name == "th"@
    ||| name == "td"@
    ||| name == "pre"@
    ||| name == "code"@
    ||| name == "strong"@
    ||| name == "em"@
    ||| name == "mark"@
    ||| name == "small"@
    ||| name == "del"@
    ||| name == "ins"@
    ||| name == "sub"@
    ||| name == "sup"@
    ||| name == "a"@
}

/// Whether elements with the tag `name` carry content.
pub fn is_content_tag(name: &str) -> (r: bool)
    ensures
        r == content_tag(name@),
{
    *name == *"h1" || *name == *"h2" || *name == *"h3" || *name == *"h4" || *name == *"h5" || *name
        == *"h6" || *name == *"p" || *name == *"li" || *name == *"dt" || *name == *"dd" || *name
        == *"blockquote" || *name == *"q" || *name == *"cite" || *name == *"caption" || *name
        == *"th" || *name == *"td" || *name == *"pre" || *name == *"code" || *name == *"strong"
        || *name == *"em" || *name == *"mark" || *name == *"small" || *name == *"del" || *name
        == *"ins" || *name == *"sub" || *name == *"sup" || *name == *"a"
}

/// Whether a node is a content element.
pub open spec fn is_content(node: NodeView) -> bool {
    node.name matches Some(name) && content_tag(name)
}

/// The reference of a node that is an anchor with an `href` attribute.
pub open spec fn anchor_href(node: NodeView) -> Option<Seq<char>> {
    if node.name == Some("a"@) {
        attr_of(node, "href"@)
    } else {
        None
    }
}

/// The references of the anchors among the nodes at `positions`, in that order.
pub open spec fn hrefs_at(nodes: Seq<NodeView>, positions: Seq<int>) -> Seq<Seq<char>>
    decreases positions.len(),
{
    if positions.len() == 0 {
        Seq::empty()
    } else {
        let front = hrefs_at(nodes, positions.drop_last());
        match anchor_href(nodes[positions.last()]) {
            Some(href) => front.push(href),
            None => front,
        }
    }
}

/// The references of the anchors that the node at `i` is or holds, in document order.
pub open spec fn hrefs_within(nodes: Seq<NodeView>, i: int) -> Seq<Seq<char>> {
    hrefs_at(nodes, seq![i] + nodes[i].below)
}

/// Whether the node at `i` lies in a content element: it is one, or a node above it is.
pub open spec fn in_content(nodes: Seq<NodeView>, i: int) -> bool
    decreases i,
{
    0 <= i < nodes.len() && (is_content(nodes[i]) || above_in_content(nodes, i))
}

/// Whether the node that holds the node at `i` lies in a content element.
pub open spec fn above_in_content(nodes: Seq<NodeView>, i: int) -> bool
    decreases i, 0nat,
    when 0 <= i
{
    match nodes[i].parent {
        Some(p) => 0 <= p < i && in_content(nodes, p),
        None => false,
    }
}

/// Whether the node at `i` is a content element that lies in no other content element. Such
/// an element is read with all that it holds, so that no text is read twice.
pub open spec fn is_outermost(nodes: Seq<NodeView>, i: int) -> bool {
    0 <= i < nodes.len() && is_content(nodes[i]) && !above_in_content(nodes, i)
}

/// The content elements of a document, in document order: each content element that lies in
/// no other, with its text and with the references of the anchors that it is or holds.
pub open spec fn content_elements(nodes: Seq<NodeView>) -> Seq<ElementView> {
    elements_upto(nodes, nodes.len() as int)
}

/// The content elements among the first `n` nodes of a document.
pub open spec fn elements_upto(nodes: Seq<NodeView>, n: int) -> Seq<ElementView>
    decreases n,
{
    if n <= 0 {
        Seq::empty()
    } else {
        let front = elements_upto(nodes, n - 1);
        if is_outermost(nodes, n - 1) {
            front.push(ElementView { text: nodes[n - 1].text, links: hrefs_within(nodes, n - 1) })
        } else {
            front
        }
    }
}

/// The reference of the node at `i`, where it is an anchor with an `href` attribute.
fn href_of(doc: &Document, i: usize) -> (r: Option<String>)
    requires
        i < document_nodes(*doc).len(),
    ensures
        opt_view(r) == anchor_href(document_nodes(*doc)[i as int]),
{
    match node_name(doc, i) {
        Some(name) => {
            if *name.as_str() == *"a" {
                node_attr(doc, i, "href")
            } else {
                None
            }
        },
        None => None,
    }
}

/// The references of the anchors that the node at `i` is or holds.
fn links_within(doc: &Document, i: usize) -> (links: Vec<String>)
    requires
        i < document_nodes(*doc).len(),
    ensures
        views(links@) == hrefs_within(document_nodes(*doc), i as int),
{
    let ghost nodes = document_nodes(*doc);
    let below = node_descendants(doc, i);
    let ghost positions = seq![i as int] + nodes[i as int].below;
    let mut links: Vec<String> = Vec::new();
    proof {
        assert(positions.take(1) =~= seq![i as int]);
        assert(positions.take(1).drop_last() =~= Seq::<int>::empty());
        assert(hrefs_at(nodes, Seq::<int>::empty()) =~= Seq::<Seq<char>>::empty());
    }
    match href_of(doc, i) {
        Some(href) => {
            links.push(href);
            assert(views(links@) =~= Seq::<Seq<char>>::empty().push(href@));
        },
        None => {
            assert(views(links@) =~= Seq::<Seq<char>>::empty());
        },
    }
    let mut k: usize = 0;
    while k < below.len()
        invariant
            k <= below@.len(),
            nodes == document_nodes(*doc),
            positions == seq![i as int] + nodes[i as int].below,
            below@.len() == nodes[i as int].below.len(),
            forall|j: int|
                0 <= j < below@.len() ==> #[trigger] below@[j] == nodes[i as int].below[j]
                    && below@[j] < nodes.len(),
            views(links@) == hrefs_at(nodes, positions.take(k + 1)),
        decreases below@.len() - k,
    {
        let ghost found = views(links@);
        proof {
            assert(positions.take(k + 2).drop_last() =~= positions.take(k + 1));
            assert(positions.take(k + 2).last() == below@[k as int]);
        }
        match href_of(doc, below[k]) {
            Some(href) => {
                links.push(href);
                assert(views(links@) =~= found.push(href@));
            },
            None => {},
        }
        k += 1;
    }
    proof {
        assert(positions.take(k + 1) =~= positions);
    }
    links
}

/// Reads a page: parses `html` and lists its content elements, each with its text and with the
/// references of the anchors in it. A content element that lies in another is read with that
/// one, and not again by itself. The text has to be one of `MAX_PAGE_LEN` characters at most.
pub fn read_page(html: &str) -> (page: Vec<Element>)
    requires
        html@.len() <= MAX_PAGE_LEN,
    ensures
        page_view(page@) == content_elements(parsed_html(html@)),
{
    let doc = parse_html(html);
    let ghost nodes = document_nodes(doc);
    let n = node_count(&doc);
    let mut page: Vec<Element> = Vec::new();
    let mut inside: Vec<bool> = Vec::new();
    let mut i: usize = 0;
    proof {
        assert(page_view(page@) =~= elements_upto(nodes, 0));
    }
    while i < n
        invariant
            i <= n,
            n == nodes.len(),
            nodes == document_nodes(doc),
            inside@.len() == i,
            forall|j: int| 0 <= j < i ==> #[trigger] inside@[j] == in_content(nodes, j),
            page_view(page@) == elements_upto(nodes, i as int),
        decreases n - i,
    {
        let ghost sofar = page_view(page@);
        let content = match node_name(&doc, i) {
            Some(name) => is_content_tag(name.as_str()),
            None => false,
        };
        let above = match node_parent(&doc, i) {
            Some(p) => p < i && inside[p],
            None => false,
        };
        assert(above == above_in_content(nodes, i as int));
        if content && !above {
            let text = node_text(&doc, i);
            let links = links_within(&doc, i);
            let ghost item = ElementView { text: text@, links: views(links@) };
            page.push(Element { text, links });
            assert(page_view(page@) =~= sofar.push(item));
        }
        inside.push(content || above);
        i += 1;
    }
    page
}

/// Reads a page as `read_page` does where the text has `MAX_PAGE_LEN` characters at most;
/// a longer text is not read.
pub fn try_read_page(html: &str) -> (r: Option<Vec<Element>>)
    ensures
        match r {
            Some(page) => html@.len() <= MAX_PAGE_LEN && page_view(page@) == content_elements(
                parsed_html(html@),
            ),
            None => html@.len() > MAX_PAGE_LEN,
        },
{
    if html.unicode_len() <= MAX_PAGE_LEN {
        Some(read_page(html))
    } else {
        None
    }
}

} // verus!
