//! Which tokens are counted: the common-word dictionary and the token policy.

use vstd::prelude::*;
use unicode_normalization::UnicodeNormalization;
use crate::frequency::{tally_into, WordFrequency};
use crate::index::TextIndex;
use crate::text::{
    ascii_lowered, chars_of, lemma_ascii_lowered, lemma_contains_last, lemma_contains_push,
    lowercase_of, no_capitals, split_whitespace, string_of, tokens, views,
};

verus! {

/// The canonical composition (NFC) of a text, as the `unicode-normalization` crate computes it.
pub uninterp spec fn nfc_of(s: Seq<char>) -> Seq<char>;

/// `UnicodeNormalization::nfc` on a string slice, collected into a string: the result is the
/// canonical composition of `text`.
#[verifier::external_body]
pub(crate) fn nfc(text: &str) -> (r: String)
    ensures
        r@ == nfc_of(text@),
{
    text.nfc().collect()
}

/// How many characters at the start of `s` come before the first line feed.
pub open spec fn line_len(s: Seq<char>) -> nat
    decreases s.len(),
{
    if s.len() == 0 || s[0] == '\n' {
        0
    } else {
        1 + line_len(s.drop_first())
    }
}

/// A line without the carriage return that may end it.
pub open spec fn without_cr(line: Seq<char>) -> Seq<char> {
    if line.len() > 0 && line.last() == '\r' {
        line.drop_last()
    } else {
        line
    }
}

/// The lines of a text. A line ends at a line feed, or at a carriage return followed by one;
/// the end of the last line may be missing.
pub open spec fn lines_of(s: Seq<char>) -> Seq<Seq<char>>
    decreases s.len(),
{
    if s.len() == 0 {
        Seq::empty()
    } else {
        let n = line_len(s) as int;
        if n < s.len() {
            seq![without_cr(s.take(n))] + lines_of(s.skip(n + 1))
        } else {
            seq![s]
        }
    }
}

/// The first `limit` items of `lines`, or all of them where there are fewer.
pub open spec fn first_lines(lines: Seq<Seq<char>>, limit: nat) -> Seq<Seq<char>> {
    if limit < lines.len() {
        lines.take(limit as int)
    } else {
        lines
    }
}

/// A run of `line_len` characters holds no line feed and stops at the end of the text or in
/// front of a line feed.
pub proof fn lemma_line_len(s: Seq<char>)
    ensures
        line_len(s) <= s.len(),
        forall|i: int| 0 <= i < line_len(s) ==> #[trigger] s[i] != '\n',
        line_len(s) < s.len() ==> s[line_len(s) as int] == '\n',
    decreases s.len(),
{
    if s.len() != 0 && s[0] != '\n' {
        let t = s.drop_first();
        lemma_line_len(t);
        assert forall|i: int| 0 <= i < line_len(s) implies #[trigger] s[i] != '\n' by {
            if i > 0 {
                assert(s[i] == t[i - 1]);
            }
        }
        if line_len(s) < s.len() {
            assert(s[line_len(s) as int] == t[line_len(t) as int]);
        }
    }
}

/// The words that are too common to be counted.
pub struct CommonWords {
    words: TextIndex,
}

impl CommonWords {
    /// The set of common words.
    pub closed spec fn view(&self) -> Set<Seq<char>> {
        self.words@.to_set()
    }

    /// The dictionary is in order: its list of words is well formed.
    pub closed spec fn wf(&self) -> bool {
        self.words.wf()
    }

    /// A dictionary without words: every token passes it.
    pub fn none() -> (r: Self)
        ensures
            r.wf(),
            r@ == Set::<Seq<char>>::empty(),
    {
        let r = CommonWords { words: TextIndex::new() };
        assert(r@ =~= Set::<Seq<char>>::empty());
        r
    }

    /// Reads a dictionary from a text that holds one word on each line, and keeps the first
    /// `limit` lines of it.
    pub fn from_text(text: &str, limit: usize) -> (r: Self)
        ensures
            r.wf(),
            r@ == first_lines(lines_of(text@), limit as nat).to_set(),
    {
        let v = chars_of(text);
        let mut words = TextIndex::new();
        let mut taken: usize = 0;
        let ghost mut read: Seq<Seq<char>> = Seq::empty();
        let mut i: usize = 0;
        proof {
            assert(v@.skip(0) =~= v@);
            assert(read + lines_of(v@) =~= lines_of(v@));
            assert(words@.to_set() =~= read.to_set());
        }
        while i < v.len() && taken < limit
            invariant
                i <= v.len(),
                v@ == text@,
                words.wf(),
                taken == read.len(),
                taken <= limit,
                words@.to_set() == read.to_set(),
                read + lines_of(v@.skip(i as int)) == lines_of(v@),
            decreases v.len() - i,
        {
            let ghost rest = v@.skip(i as int);
            let ghost done = read;
            let ghost held = words@;
            proof {
                lemma_line_len(rest);
            }
            let mut j: usize = i;
            while j < v.len() && v[j] != '\n'
                invariant
                    i <= j <= v.len(),
                    rest == v@.skip(i as int),
                    j - i <= line_len(rest),
                    line_len(rest) <= rest.len(),
                    forall|k: int| 0 <= k < line_len(rest) ==> #[trigger] rest[k] != '\n',
                    line_len(rest) < rest.len() ==> rest[line_len(rest) as int] == '\n',
                decreases v.len() - j,
            {
                assert(rest[j - i] == v@[j as int]);
                j += 1;
            }
            assert(j - i == line_len(rest)) by {
                if j < v.len() {
                    assert(rest[j - i] == v@[j as int]);
                }
            }
            let end = if j < v.len() && j > i && v[j - 1] == '\r' {
                j - 1
            } else {
                j
            };
            let line = string_of(&v, i, end);
            let ghost line_view = line@;
            words.insert(line);
            taken += 1;
            proof {
                read = done.push(line_view);
                assert(words@.to_set() =~= read.to_set()) by {
                    assert forall|w: Seq<char>| words@.contains(w) <==> read.contains(w) by {
                        assert(held.to_set().contains(w) <==> done.to_set().contains(w));
                        lemma_contains_push(done, line_view, w);
                        if !held.contains(line_view) {
                            lemma_contains_push(held, line_view, w);
                        }
                    }
                }
                let n = line_len(rest) as int;
                assert(rest.take(n) =~= v@.subrange(i as int, j as int));
            }
            if j < v.len() {
                proof {
                    let n = line_len(rest) as int;
                    assert(without_cr(rest.take(n)) =~= v@.subrange(i as int, end as int));
                    assert(rest.skip(n + 1) =~= v@.skip(j + 1));
                    assert(read + lines_of(v@.skip(j + 1)) =~= done + lines_of(rest));
                }
                i = j + 1;
            } else {
                proof {
                    assert(rest =~= v@.subrange(i as int, j as int));
                    assert(v@.skip(j as int).len() == 0);
                    assert(read + lines_of(v@.skip(j as int)) =~= done + lines_of(rest));
                }
                i = j;
            }
        }
        proof {
            let all = lines_of(v@);
            let tail = lines_of(v@.skip(i as int));
            if i < v.len() {
                assert(read.len() == limit);
                assert(all.take(limit as int) =~= read);
            } else {
                assert(tail.len() == 0);
                assert(all =~= read);
            }
            assert(first_lines(all, limit as nat) =~= read);
        }
        CommonWords { words }
    }

    /// Whether `word` is a common word.
    pub fn contains(&self, word: &String) -> (r: bool)
        requires
            self.wf(),
        ensures
            r == self@.contains(word@),
    {
        self.words.contains(word)
    }
}

/// A character that a counted word may hold: an ASCII letter or the apostrophe.
pub open spec fn word_char(c: char) -> bool {
    ('a' <= c && c <= 'z') || ('A' <= c && c <= 'Z') || c == '\''
}

/// A text made of ASCII letters and apostrophes alone.
pub open spec fn only_word_chars(s: Seq<char>) -> bool {
    forall|i: int| 0 <= i < s.len() ==> word_char(#[trigger] s[i])
}

/// The token policy: a lowercased token is counted when it is not empty, holds nothing but
/// ASCII letters and apostrophes, has at least `min_length` characters and is no common word.
pub open spec fn accepted(word: Seq<char>, min_length: nat, common: Set<Seq<char>>) -> bool {
    &&& word.len() > 0
    &&& only_word_chars(word)
    &&& word.len() >= min_length
    &&& !common.contains(word)
}

/// Whether `c` is an ASCII letter or the apostrophe.
pub fn is_word_char(c: char) -> (r: bool)
    ensures
        r == word_char(c),
{
    (c >= 'a' && c <= 'z') || (c >= 'A' && c <= 'Z') || c == '\''
}

/// Decides whether a lowercased token is counted.
pub fn accepts(word: &String, min_length: usize, common: &CommonWords) -> (r: bool)
    requires
        common.wf(),
    ensures
        r == accepted(word@, min_length as nat, common@),
{
    let v = chars_of(word.as_str());
    if v.len() == 0 || v.len() < min_length {
        return false;
    }
    let mut i: usize = 0;
    while i < v.len()
        invariant
            i <= v.len(),
            v@ == word@,
            forall|k: int| 0 <= k < i ==> word_char(#[trigger] v@[k]),
        decreases v.len() - i,
    {
        if !is_word_char(v[i]) {
            assert(!word_char(word@[i as int]));
            return false;
        }
        i += 1;
    }
    !common.contains(word)
}

/// The lowercase form of a token. It holds no ASCII capital letter.
pub open spec fn small_form(token: Seq<char>) -> Seq<char> {
    ascii_lowered(lowercase_of(token))
}

/// The lowercase forms of a list of tokens.
pub open spec fn lowercased(raw: Seq<Seq<char>>) -> Seq<Seq<char>> {
    Seq::new(raw.len(), |i: int| small_form(raw[i]))
}

/// The candidate words of a text: the text is brought into canonical composition and split on
/// whitespace, and each token is lowercased.
pub open spec fn candidate_words(text: Seq<char>) -> Seq<Seq<char>> {
    lowercased(split_whitespace(nfc_of(text)))
}

/// The words of a list that the policy accepts, in the order of the list.
pub open spec fn kept_words(
    words: Seq<Seq<char>>,
    min_length: nat,
    common: Set<Seq<char>>,
) -> Seq<Seq<char>>
    decreases words.len(),
{
    if words.len() == 0 {
        Seq::empty()
    } else {
        let front = kept_words(words.drop_last(), min_length, common);
        if accepted(words.last(), min_length, common) {
            front.push(words.last())
        } else {
            front
        }
    }
}

/// Every candidate word of a text is free of ASCII capital letters.
pub proof fn lemma_candidates_small(text: Seq<char>)
    ensures
        forall|k: int|
            0 <= k < candidate_words(text).len() ==> no_capitals(#[trigger] candidate_words(text)[k]),
{
    let raw = split_whitespace(nfc_of(text));
    assert forall|k: int| 0 <= k < candidate_words(text).len() implies no_capitals(
        #[trigger] candidate_words(text)[k],
    ) by {
        lemma_ascii_lowered(lowercase_of(raw[k]));
    }
}

/// The words that are counted for a text: its candidate words that the policy accepts.
pub open spec fn text_words(text: Seq<char>, min_length: nat, common: Set<Seq<char>>) -> Seq<
    Seq<char>,
> {
    kept_words(candidate_words(text), min_length, common)
}

/// Every kept word meets the policy and is a word of the list.
pub proof fn lemma_kept_words_accepted(
    words: Seq<Seq<char>>,
    min_length: nat,
    common: Set<Seq<char>>,
)
    ensures
        forall|k: int|
            0 <= k < kept_words(words, min_length, common).len() ==> accepted(
                #[trigger] kept_words(words, min_length, common)[k],
                min_length,
                common,
            ) && words.contains(kept_words(words, min_length, common)[k]),
    decreases words.len(),
{
    if words.len() > 0 {
        lemma_kept_words_accepted(words.drop_last(), min_length, common);
        let front = kept_words(words.drop_last(), min_length, common);
        let all = kept_words(words, min_length, common);
        assert forall|k: int| 0 <= k < all.len() implies accepted(
            #[trigger] all[k],
            min_length,
            common,
        ) && words.contains(all[k]) by {
            lemma_contains_last(words, all[k]);
            if k < front.len() {
                assert(all[k] == front[k]);
            } else {
                assert(all[k] == words.last());
            }
        }
    }
}

/// Lists the candidate words of `text`.
pub fn candidates(text: &str) -> (out: Vec<String>)
    ensures
        views(out@) == candidate_words(text@),
{
    let composed = nfc(text);
    let raw = tokens(composed.as_str());
    let mut out: Vec<String> = Vec::new();
    let mut i: usize = 0;
    while i < raw.len()
        invariant
            i <= raw@.len(),
            views(out@) == lowercased(views(raw@)).take(i as int),
        decreases raw@.len() - i,
    {
        let ghost sofar = views(out@);
        let word = raw[i].as_str().to_lowercase();
        proof {
            lemma_ascii_lowered(word@);
        }
        out.push(word);
        proof {
            assert(views(out@) =~= sofar.push(small_form(raw@[i as int]@)));
            assert(views(out@) =~= lowercased(views(raw@)).take(i + 1));
        }
        i += 1;
    }
    proof {
        assert(lowercased(views(raw@)).take(i as int) =~= lowercased(views(raw@)));
    }
    out
}

/// Counts the words of `words` that the policy accepts into `table`.
pub fn count_words(
    table: &mut WordFrequency,
    words: &Vec<String>,
    min_length: usize,
    common: &CommonWords,
)
    requires
        old(table).wf(),
        common.wf(),
    ensures
        final(table).wf(),
        final(table)@ == tally_into(
            old(table)@,
            kept_words(views(words@), min_length as nat, common@),
        ),
{
    let ghost start = table@;
    let ghost all = views(words@);
    let mut i: usize = 0;
    proof {
        assert(all.take(0) =~= Seq::<Seq<char>>::empty());
    }
    while i < words.len()
        invariant
            i <= words@.len(),
            all == views(words@),
            table.wf(),
            common.wf(),
            table@ == tally_into(start, kept_words(all.take(i as int), min_length as nat, common@)),
        decreases words@.len() - i,
    {
        proof {
            let front = kept_words(all.take(i as int), min_length as nat, common@);
            assert(all.take(i + 1).drop_last() =~= all.take(i as int));
            assert(all.take(i + 1).last() == words@[i as int]@);
            assert(front.push(words@[i as int]@).drop_last() =~= front);
        }
        if accepts(&words[i], min_length, common) {
            table.add(words[i].clone(), 1);
        }
        i += 1;
    }
    proof {
        assert(all.take(i as int) =~= all);
    }
}

/// Counts the words of `text` that the policy accepts into `table`.
pub fn count_text(table: &mut WordFrequency, text: &str, min_length: usize, common: &CommonWords)
    requires
        old(table).wf(),
        common.wf(),
    ensures
        final(table).wf(),
        final(table)@ == tally_into(
            old(table)@,
            text_words(text@, min_length as nat, common@),
        ),
{
    let words = candidates(text);
    count_words(table, &words, min_length, common);
}

} // verus!
