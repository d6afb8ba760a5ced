//! The page extractor: from the content elements of one fetched page to the words that are
//! counted for it and the links that lead out of it.

use vstd::prelude::*;
use crate::frequency::{
    lemma_tally_into_dom, lemma_tally_into_merged, tally, tally_into, valid_counts, Counts,
    WordFrequency,
};
use crate::link::{join_url, resolved_url};
use crate::text::{
    contains_text, lemma_contains_last, lemma_contains_push, no_capitals, views,
};
use crate::words::{
    accepted, candidate_words, count_text, lemma_candidates_small, lemma_kept_words_accepted,
    text_words, CommonWords,
};

verus! {

/// One content element of a fetched page: its text, and the references of the anchors that
/// stand in it, in document order.
#[derive(Debug)]
pub struct Element {
    pub text: String,
    pub links: Vec<String>,
}

/// What an element holds, as plain sequences.
pub struct ElementView {
    pub text: Seq<char>,
    pub links: Seq<Seq<char>>,
}

impl Element {
    /// The element as plain sequences.
    pub open spec fn view(&self) -> ElementView {
        ElementView { text: self.text@, links: views(self.links@) }
    }
}

/// The views of the elements of a page.
pub open spec fn page_view(page: Seq<Element>) -> Seq<ElementView> {
    Seq::new(page.len(), |i: int| page[i]@)
}

/// The words that are counted for a page: those of its elements, one element after the other.
pub open spec fn page_words(page: Seq<ElementView>, min_length: nat, common: Set<Seq<char>>) -> Seq<
    Seq<char>,
>
    decreases page.len(),
{
    if page.len() == 0 {
        Seq::empty()
    } else {
        page_words(page.drop_last(), min_length, common) + text_words(
            page.last().text,
            min_length,
            common,
        )
    }
}

/// The frequency table of one page.
pub open spec fn page_counts(page: Seq<ElementView>, min_length: nat, common: Set<Seq<char>>) -> Counts {
    tally(page_words(page, min_length, common))
}

/// The references of all anchors of a page, in document order.
pub open spec fn page_hrefs(page: Seq<ElementView>) -> Seq<Seq<char>>
    decreases page.len(),
{
    if page.len() == 0 {
        Seq::empty()
    } else {
        page_hrefs(page.drop_last()) + page.last().links
    }
}

/// The items of `s` without repetitions: each stands where it first occurs.
pub open spec fn first_occurrences(s: Seq<Seq<char>>) -> Seq<Seq<char>>
    decreases s.len(),
{
    if s.len() == 0 {
        Seq::empty()
    } else {
        let front = first_occurrences(s.drop_last());
        if front.contains(s.last()) {
            front
        } else {
            front.push(s.last())
        }
    }
}

/// The absolute URLs that the references `hrefs` resolve to against `base`, in the same order.
/// A reference that does not resolve is left out.
pub open spec fn resolved_all(base: Seq<char>, hrefs: Seq<Seq<char>>) -> Seq<Seq<char>>
    decreases hrefs.len(),
{
    if hrefs.len() == 0 {
        Seq::empty()
    } else {
        let front = resolved_all(base, hrefs.drop_last());
        match resolved_url(base, hrefs.last()) {
            Some(url) => front.push(url),
            None => front,
        }
    }
}

/// The outbound links of a page fetched from `base`: the resolved references of its anchors,
/// each once, in the order of first appearance.
pub open spec fn page_links(page: Seq<ElementView>, base: Seq<char>) -> Seq<Seq<char>> {
    first_occurrences(resolved_all(base, page_hrefs(page)))
}

/// Counting a concatenation is counting its first part and then its second.
pub proof fn lemma_tally_into_concat(m: Counts, a: Seq<Seq<char>>, b: Seq<Seq<char>>)
    ensures
        tally_into(m, a + b) == tally_into(tally_into(m, a), b),
    decreases b.len(),
{
    if b.len() == 0 {
        assert(a + b =~= a);
    } else {
        lemma_tally_into_concat(m, a, b.drop_last());
        assert((a + b).drop_last() =~= a + b.drop_last());
        assert((a + b).last() == b.last());
    }
}

/// A list of first occurrences holds no item twice, and holds exactly the items of the list
/// it was made from.
pub proof fn lemma_first_occurrences(s: Seq<Seq<char>>)
    ensures
        first_occurrences(s).no_duplicates(),
        forall|x: Seq<char>| first_occurrences(s).contains(x) <==> s.contains(x),
    decreases s.len(),
{
    if s.len() > 0 {
        let front = s.drop_last();
        let f = first_occurrences(front);
        let last = s.last();
        lemma_first_occurrences(front);
        assert forall|x: Seq<char>| s.contains(x) <==> front.contains(x) || x == last by {
            lemma_contains_last(s, x);
        }
        if !f.contains(last) {
            let g = f.push(last);
            assert forall|x: Seq<char>| g.contains(x) <==> f.contains(x) || x == last by {
                lemma_contains_push(f, last, x);
            }
            assert forall|i: int, j: int| 0 <= i < g.len() && 0 <= j < g.len() && i != j implies g[i]
                != g[j] by {
                if i < f.len() && j < f.len() {
                    assert(f[i] != f[j]);
                } else if i < f.len() {
                    assert(f[i] == g[i]);
                    assert(f.contains(g[i]));
                } else {
                    assert(f[j] == g[j]);
                    assert(f.contains(g[j]));
                }
            }
        }
    }
}

/// Every word that is counted for a page meets the token policy and holds no capital letter.
pub proof fn lemma_page_words_accepted(
    page: Seq<ElementView>,
    min_length: nat,
    common: Set<Seq<char>>,
)
    ensures
        forall|k: int|
            0 <= k < page_words(page, min_length, common).len() ==> accepted(
                #[trigger] page_words(page, min_length, common)[k],
                min_length,
                common,
            ) && no_capitals(page_words(page, min_length, common)[k]),
    decreases page.len(),
{
    if page.len() > 0 {
        let front = page_words(page.drop_last(), min_length, common);
        let here = text_words(page.last().text, min_length, common);
        let all = page_words(page, min_length, common);
        lemma_page_words_accepted(page.drop_last(), min_length, common);
        let candidates = candidate_words(page.last().text);
        lemma_kept_words_accepted(candidates, min_length, common);
        lemma_candidates_small(page.last().text);
        assert forall|k: int| 0 <= k < all.len() implies accepted(
            #[trigger] all[k],
            min_length,
            common,
        ) && no_capitals(all[k]) by {
            if k < front.len() {
                assert(all[k] == front[k]);
            } else {
                let w = here[k - front.len()];
                assert(all[k] == w);
                assert(candidates.contains(w));
                let j = choose|j: int| 0 <= j < candidates.len() && candidates[j] == w;
                assert(no_capitals(candidates[j]));
            }
        }
    }
}

/// The frequency table of a page is valid, and every word in it meets the token policy: it is
/// not empty, holds nothing but ASCII letters and apostrophes, has at least `min_length`
/// characters, and is no common word, however often it stands on the page. Every word in it
/// is in lowercase.
pub proof fn lemma_page_counts_accepted(
    page: Seq<ElementView>,
    min_length: nat,
    common: Set<Seq<char>>,
)
    ensures
        valid_counts(page_counts(page, min_length, common)),
        forall|w: Seq<char>| #[trigger]
            page_counts(page, min_length, common).dom().contains(w) ==> accepted(
                w,
                min_length,
                common,
            ) && no_capitals(w),
{
    let words = page_words(page, min_length, common);
    let none = Map::<Seq<char>, nat>::empty();
    assert(valid_counts(none));
    lemma_tally_into_merged(none, words);
    lemma_tally_into_dom(none, words);
    lemma_page_words_accepted(page, min_length, common);
    assert forall|w: Seq<char>| #[trigger]
        page_counts(page, min_length, common).dom().contains(w) implies accepted(
        w,
        min_length,
        common,
    ) && no_capitals(w) by {
        assert(words.contains(w));
        let k = choose|k: int| 0 <= k < words.len() && words[k] == w;
        assert(accepted(words[k], min_length, common) && no_capitals(words[k]));
    }
}

/// Counts the words of a page into a table of its own.
pub fn count_page(page: &Vec<Element>, min_length: usize, common: &CommonWords) -> (table:
    WordFrequency)
    requires
        common.wf(),
    ensures
        table.wf(),
        table@ == page_counts(page_view(page@), min_length as nat, common@),
{
    let mut table = WordFrequency::new();
    let ghost pv = page_view(page@);
    let mut i: usize = 0;
    proof {
        assert(pv.take(0) =~= Seq::<ElementView>::empty());
    }
    while i < page.len()
        invariant
            i <= page@.len(),
            pv == page_view(page@),
            table.wf(),
            common.wf(),
            table@ == page_counts(pv.take(i as int), min_length as nat, common@),
        decreases page@.len() - i,
    {
        proof {
            let sofar = page_words(pv.take(i as int), min_length as nat, common@);
            let here = text_words(page@[i as int].text@, min_length as nat, common@);
            assert(pv.take(i + 1).drop_last() =~= pv.take(i as int));
            assert(pv.take(i + 1).last() == page@[i as int]@);
            lemma_tally_into_concat(Map::empty(), sofar, here);
        }
        count_text(&mut table, page[i].text.as_str(), min_length, common);
        i += 1;
    }
    proof {
        assert(pv.take(i as int) =~= pv);
    }
    table
}

/// Resolves the references of the anchors of a page against the URL it was fetched from, and
/// lists each outcome once.
pub fn outbound_links(page: &Vec<Element>, base_url: &str) -> (links: Vec<String>)
    ensures
        views(links@) == page_links(page_view(page@), base_url@),
{
    let mut links: Vec<String> = Vec::new();
    let ghost pv = page_view(page@);
    let mut i: usize = 0;
    proof {
        assert(pv.take(0) =~= Seq::<ElementView>::empty());
    }
    while i < page.len()
        invariant
            i <= page@.len(),
            pv == page_view(page@),
            views(links@) == first_occurrences(
                resolved_all(base_url@, page_hrefs(pv.take(i as int))),
            ),
        decreases page@.len() - i,
    {
        let ghost before = page_hrefs(pv.take(i as int));
        let ghost own = views(page@[i as int].links@);
        let element = &page[i];
        let mut j: usize = 0;
        proof {
            assert(own.take(0) =~= Seq::<Seq<char>>::empty());
            assert(before + own.take(0) =~= before);
        }
        while j < element.links.len()
            invariant
                j <= element.links@.len(),
                own == views(element.links@),
                views(links@) == first_occurrences(
                    resolved_all(base_url@, before + own.take(j as int)),
                ),
            decreases element.links@.len() - j,
        {
            let ghost hrefs = before + own.take(j as int);
            let ghost next = before + own.take(j + 1);
            let ghost found = resolved_all(base_url@, hrefs);
            proof {
                assert(next.drop_last() =~= hrefs);
                assert(next.last() == element.links@[j as int]@);
            }
            match join_url(base_url, element.links[j].as_str()) {
                Some(url) => {
                    proof {
                        assert(found.push(url@).drop_last() =~= found);
                    }
                    if !contains_text(&links, &url) {
                        let ghost old_links = views(links@);
                        links.push(url);
                        assert(views(links@) =~= old_links.push(url@));
                    }
                },
                None => {},
            }
            j += 1;
        }
        proof {
            assert(own.take(j as int) =~= own);
            assert(pv.take(i + 1).drop_last() =~= pv.take(i as int));
            assert(pv.take(i + 1).last() == page@[i as int]@);
        }
        i += 1;
    }
    proof {
        assert(pv.take(i as int) =~= pv);
    }
    links
}

/// Extracts from one fetched page the frequency table of its words and its outbound links.
pub fn extract(page: &Vec<Element>, base_url: &str, min_length: usize, common: &CommonWords) -> (r:
    (WordFrequency, Vec<String>))
    requires
        common.wf(),
    ensures
        r.0.wf(),
        r.0@ == page_counts(page_view(page@), min_length as nat, common@),
        views(r.1@) == page_links(page_view(page@), base_url@),
{
    let table = count_page(page, min_length, common);
    let links = outbound_links(page, base_url);
    (table, links)
}

} // verus!
