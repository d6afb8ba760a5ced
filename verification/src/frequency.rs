//! The word-frequency table: how often each accepted token occurred.

use vstd::prelude::*;
use crate::index::TextIndex;
use crate::text::lemma_contains_last;

verus! {

/// A frequency table as a mathematical object: each counted word with its count.
pub type Counts = Map<Seq<char>, nat>;

/// The largest count the table holds; larger sums stay at this value.
pub open spec fn count_limit() -> nat {
    u32::MAX as nat
}

/// `n`, or the limit where `n` is beyond it.
pub open spec fn capped(n: nat) -> nat {
    if n > count_limit() {
        count_limit()
    } else {
        n
    }
}

/// How often `word` was counted; zero for a word that is not in the table.
pub open spec fn count_of(m: Counts, word: Seq<char>) -> nat {
    if m.dom().contains(word) {
        m[word]
    } else {
        0
    }
}

/// A table is valid when it is finite and every word in it has a count from 1 to the limit.
pub open spec fn valid_counts(m: Counts) -> bool {
    &&& m.dom().finite()
    &&& forall|w: Seq<char>| m.dom().contains(w) ==> 1 <= #[trigger] m[w] <= count_limit()
}

/// The table after `word` was counted `n` more times.
pub open spec fn with_word(m: Counts, word: Seq<char>, n: nat) -> Counts {
    if n == 0 {
        m
    } else {
        m.insert(word, capped(count_of(m, word) + n))
    }
}

/// The table that holds, for each word, the sum of its counts in `a` and in `b`.
pub open spec fn merged(a: Counts, b: Counts) -> Counts {
    Map::new(
        |w: Seq<char>| a.dom().contains(w) || b.dom().contains(w),
        |w: Seq<char>| capped(count_of(a, w) + count_of(b, w)),
    )
}

/// The table `m` after each item of `words` was counted once more.
pub open spec fn tally_into(m: Counts, words: Seq<Seq<char>>) -> Counts
    decreases words.len(),
{
    if words.len() == 0 {
        m
    } else {
        with_word(tally_into(m, words.drop_last()), words.last(), 1)
    }
}

/// The table that counts each item of `words` once.
pub open spec fn tally(words: Seq<Seq<char>>) -> Counts {
    tally_into(Map::empty(), words)
}

/// Whether some entry of `es` is for `word`.
pub open spec fn has_entry(es: Seq<(Seq<char>, nat)>, word: Seq<char>) -> bool {
    exists|i: int| 0 <= i < es.len() && (#[trigger] es[i]).0 == word
}

/// The position of an entry for `word`, where there is one.
pub open spec fn entry_index(es: Seq<(Seq<char>, nat)>, word: Seq<char>) -> int {
    choose|i: int| 0 <= i < es.len() && (#[trigger] es[i]).0 == word
}

/// No two entries of `es` are for the same word.
pub open spec fn distinct_words(es: Seq<(Seq<char>, nat)>) -> bool {
    forall|i: int, j: int|
        0 <= i < j < es.len() ==> (#[trigger] es[i]).0 != (#[trigger] es[j]).0
}

/// The table that a list of entries stands for.
pub open spec fn table_of(es: Seq<(Seq<char>, nat)>) -> Counts {
    Map::new(|w: Seq<char>| has_entry(es, w), |w: Seq<char>| es[entry_index(es, w)].1)
}

/// In a list of distinct entries, the entry at `i` decides the count of its word.
pub proof fn lemma_table_entry(es: Seq<(Seq<char>, nat)>, i: int)
    requires
        distinct_words(es),
        0 <= i < es.len(),
    ensures
        has_entry(es, es[i].0),
        entry_index(es, es[i].0) == i,
        table_of(es).dom().contains(es[i].0),
        table_of(es)[es[i].0] == es[i].1,
{
    let w = es[i].0;
    assert(has_entry(es, w));
    let j = entry_index(es, w);
    assert(0 <= j < es.len() && es[j].0 == w);
    if j != i {
        if j < i {
            assert(es[j].0 != es[i].0);
        } else {
            assert(es[i].0 != es[j].0);
        }
    }
}

/// The table of a finite list of entries is finite.
pub proof fn lemma_table_finite(es: Seq<(Seq<char>, nat)>)
    ensures
        table_of(es).dom().finite(),
    decreases es.len(),
{
    if es.len() == 0 {
        assert(table_of(es).dom() =~= Set::<Seq<char>>::empty());
    } else {
        let front = es.drop_last();
        lemma_table_finite(front);
        assert(table_of(es).dom() =~= table_of(front).dom().insert(es.last().0)) by {
            assert forall|w: Seq<char>| has_entry(es, w) implies has_entry(front, w) || w
                == es.last().0 by {
                let i = entry_index(es, w);
                if i < es.len() - 1 {
                    assert(front[i].0 == w);
                }
            }
            assert forall|w: Seq<char>| has_entry(front, w) implies has_entry(es, w) by {
                let i = entry_index(front, w);
                assert(es[i].0 == w);
            }
            assert(es[es.len() - 1].0 == es.last().0);
        }
    }
}

/// One line of a frequency table: a word and how often it was counted.
#[derive(Debug)]
pub struct WordCount {
    pub word: String,
    pub count: u32,
}

/// How often each accepted token occurred, over all the pages that were counted into it.
pub struct WordFrequency {
    words: TextIndex,
    counts: Vec<u32>,
}

impl WordFrequency {
    /// The entries in the order in which their words were first counted.
    pub closed spec fn entries(&self) -> Seq<(Seq<char>, nat)> {
        Seq::new(self.words@.len(), |i: int| (self.words@[i], self.counts@[i] as nat))
    }

    /// Each word holds one entry, and each entry a count of at least one.
    pub closed spec fn wf(&self) -> bool {
        &&& self.words.wf()
        &&& self.words@.len() == self.counts@.len()
        &&& forall|i: int| 0 <= i < self.counts@.len() ==> #[trigger] self.counts@[i] >= 1
    }

    /// The table as a map from each counted word to its count.
    pub open spec fn view(&self) -> Counts {
        table_of(self.entries())
    }

    /// In a well-formed table no two entries are for the same word.
    pub proof fn lemma_entries_distinct(&self)
        requires
            self.wf(),
        ensures
            distinct_words(self.entries()),
    {
        self.words.lemma_distinct();
        let es = self.entries();
        assert forall|i: int, j: int| 0 <= i < j < es.len() implies (#[trigger] es[i]).0 != (
        #[trigger] es[j]).0 by {
            assert(self.words@[i] != self.words@[j]);
        }
    }

    /// A well-formed table is a valid one.
    pub proof fn lemma_valid(&self)
        requires
            self.wf(),
        ensures
            valid_counts(self@),
    {
        let es = self.entries();
        lemma_table_finite(es);
        assert forall|w: Seq<char>| self@.dom().contains(w) implies 1 <= #[trigger] self@[w]
            <= count_limit() by {
            let i = entry_index(es, w);
            assert(0 <= i < es.len() && es[i].0 == w);
            assert(self.counts@[i] >= 1);
        }
    }

    /// The empty table.
    pub fn new() -> (r: Self)
        ensures
            r.wf(),
            r@ == Map::<Seq<char>, nat>::empty(),
    {
        let r = WordFrequency { words: TextIndex::new(), counts: Vec::new() };
        assert(r@ =~= Map::<Seq<char>, nat>::empty());
        r
    }

    /// The number of distinct words counted.
    pub fn len(&self) -> (n: usize)
        requires
            self.wf(),
        ensures
            n == self@.dom().len(),
    {
        proof {
            self.lemma_entries_distinct();
            lemma_entries_len(self.entries());
        }
        self.words.len()
    }

    /// Where `word` stands in the table, if it was counted.
    fn position(&self, word: &String) -> (r: Option<usize>)
        requires
            self.wf(),
        ensures
            match r {
                Some(i) => i < self.entries().len() && self.entries()[i as int].0 == word@,
                None => !has_entry(self.entries(), word@),
            },
    {
        let r = self.words.position(word);
        proof {
            if r is None && has_entry(self.entries(), word@) {
                let i = entry_index(self.entries(), word@);
                assert(self.words@[i] == word@);
            }
        }
        r
    }

    /// How often `word` was counted.
    pub fn get(&self, word: &String) -> (n: u32)
        requires
            self.wf(),
        ensures
            n == count_of(self@, word@),
    {
        match self.position(word) {
            Some(i) => {
                proof {
                    self.lemma_entries_distinct();
                    lemma_table_entry(self.entries(), i as int);
                }
                self.counts[i]
            },
            None => 0,
        }
    }

    /// Counts `word` `n` more times. A count that would pass the limit stays at the limit.
    pub fn add(&mut self, word: String, n: u32)
        requires
            old(self).wf(),
        ensures
            final(self).wf(),
            final(self)@ == with_word(old(self)@, word@, n as nat),
    {
        if n == 0 {
            return ;
        }
        let ghost es = self.entries();
        proof {
            self.lemma_entries_distinct();
        }
        match self.position(&word) {
            Some(i) => {
                let c = self.counts[i];
                let sum: u32 = if c > u32::MAX - n {
                    u32::MAX
                } else {
                    c + n
                };
                self.counts.set(i, sum);
                proof {
                    let es2 = self.entries();
                    lemma_table_entry(es, i as int);
                    assert(es2 =~= es.update(i as int, (word@, sum as nat)));
                    lemma_table_update(es, i as int, sum as nat);
                }
            },
            None => {
                proof {
                    if self.words@.contains(word@) {
                        let i = choose|i: int| 0 <= i < self.words@.len() && self.words@[i] == word@;
                        assert(es[i].0 == word@);
                    }
                }
                self.words.push(word);
                self.counts.push(n);
                proof {
                    let es2 = self.entries();
                    assert(es2 =~= es.push((word@, n as nat)));
                    lemma_table_push(es, word@, n as nat);
                }
            },
        }
    }

    /// Adds the counts of `other` to this table, word by word.
    pub fn merge(&mut self, other: &WordFrequency)
        requires
            old(self).wf(),
            other.wf(),
        ensures
            final(self).wf(),
            final(self)@ == merged(old(self)@, other@),
    {
        let ghost start = self@;
        let ghost es = other.entries();
        proof {
            self.lemma_valid();
            other.lemma_entries_distinct();
            assert(es.take(0) =~= Seq::<(Seq<char>, nat)>::empty());
            assert(table_of(es.take(0)) =~= Map::<Seq<char>, nat>::empty());
            lemma_merged_empty(start);
        }
        let mut i: usize = 0;
        while i < other.words.len()
            invariant
                i <= other.words@.len(),
                other.wf(),
                es == other.entries(),
                es.len() == other.words@.len(),
                distinct_words(es),
                valid_counts(start),
                self.wf(),
                self@ == merged(start, table_of(es.take(i as int))),
            decreases other.words@.len() - i,
        {
            let word = other.words.get(i).clone();
            let n = other.counts[i];
            proof {
                lemma_merged_step(start, es, i as int);
            }
            self.add(word, n);
            i += 1;
        }
        proof {
            assert(es.take(i as int) =~= es);
        }
    }

    /// The entries of the table, in the order in which their words were first counted.
    pub fn to_vec(&self) -> (out: Vec<WordCount>)
        requires
            self.wf(),
        ensures
            entries_of(out@) == self.entries(),
    {
        let mut out: Vec<WordCount> = Vec::new();
        let mut i: usize = 0;
        while i < self.words.len()
            invariant
                i <= self.words@.len(),
                self.wf(),
                entries_of(out@) == self.entries().take(i as int),
            decreases self.words@.len() - i,
        {
            let ghost before = entries_of(out@);
            out.push(WordCount { word: self.words.get(i).clone(), count: self.counts[i] });
            assert(entries_of(out@) =~= before.push(self.entries()[i as int]));
            assert(self.entries().take(i + 1) =~= self.entries().take(i as int).push(
                self.entries()[i as int],
            ));
            i += 1;
        }
        assert(self.entries().take(i as int) =~= self.entries());
        out
    }
}

/// A list of distinct entries has as many entries as its table has words.
pub proof fn lemma_entries_len(es: Seq<(Seq<char>, nat)>)
    requires
        distinct_words(es),
    ensures
        table_of(es).dom().finite(),
        table_of(es).dom().len() == es.len(),
    decreases es.len(),
{
    lemma_table_finite(es);
    if es.len() == 0 {
        assert(table_of(es).dom() =~= Set::<Seq<char>>::empty());
    } else {
        let front = es.drop_last();
        let w = es.last().0;
        assert(distinct_words(front)) by {
            assert forall|i: int, j: int| 0 <= i < j < front.len() implies (#[trigger] front[i]).0
                != (#[trigger] front[j]).0 by {
                assert(es[i].0 != es[j].0);
            }
        }
        lemma_entries_len(front);
        lemma_table_push(front, w, es.last().1);
        assert(front.push((w, es.last().1)) =~= es);
        assert(!has_entry(front, w)) by {
            if has_entry(front, w) {
                let i = entry_index(front, w);
                assert(es[i].0 != es[es.len() - 1].0);
            }
        }
    }
}

/// Replacing the count of the entry at `i` replaces the count of its word in the table.
pub proof fn lemma_table_update(es: Seq<(Seq<char>, nat)>, i: int, n: nat)
    requires
        distinct_words(es),
        0 <= i < es.len(),
    ensures
        distinct_words(es.update(i, (es[i].0, n))),
        table_of(es.update(i, (es[i].0, n))) == table_of(es).insert(es[i].0, n),
{
    let w = es[i].0;
    let es2 = es.update(i, (w, n));
    assert(distinct_words(es2)) by {
        assert forall|a: int, b: int| 0 <= a < b < es2.len() implies (#[trigger] es2[a]).0 != (
        #[trigger] es2[b]).0 by {
            assert(es[a].0 != es[b].0);
        }
    }
    assert forall|k: Seq<char>| has_entry(es2, k) == has_entry(es, k) by {
        if has_entry(es2, k) {
            let j = entry_index(es2, k);
            assert(es[j].0 == k);
        }
        if has_entry(es, k) {
            let j = entry_index(es, k);
            assert(es2[j].0 == k);
        }
    }
    assert forall|k: Seq<char>| has_entry(es2, k) implies #[trigger] table_of(es2)[k] == table_of(
        es,
    ).insert(w, n)[k] by {
        let j = entry_index(es2, k);
        lemma_table_entry(es2, j);
        lemma_table_entry(es, j);
    }
    assert(table_of(es2) =~= table_of(es).insert(w, n)) by {
        lemma_table_entry(es, i);
    }
}

/// Appending an entry for a word that has none adds that word to the table.
pub proof fn lemma_table_push(es: Seq<(Seq<char>, nat)>, word: Seq<char>, n: nat)
    requires
        distinct_words(es),
        !has_entry(es, word),
    ensures
        distinct_words(es.push((word, n))),
        table_of(es.push((word, n))) == table_of(es).insert(word, n),
{
    let es2 = es.push((word, n));
    assert(distinct_words(es2)) by {
        assert forall|a: int, b: int| 0 <= a < b < es2.len() implies (#[trigger] es2[a]).0 != (
        #[trigger] es2[b]).0 by {
            if b < es.len() {
                assert(es[a].0 != es[b].0);
            } else {
                assert(es[a].0 == es2[a].0);
                if es[a].0 == word {
                    assert(has_entry(es, word));
                }
            }
        }
    }
    assert forall|k: Seq<char>| has_entry(es2, k) == (has_entry(es, k) || k == word) by {
        if has_entry(es2, k) {
            let j = entry_index(es2, k);
            if j < es.len() {
                assert(es[j].0 == k);
            }
        }
        if has_entry(es, k) {
            let j = entry_index(es, k);
            assert(es2[j].0 == k);
        }
        if k == word {
            assert(es2[es.len() as int].0 == k);
        }
    }
    assert forall|k: Seq<char>| has_entry(es2, k) implies #[trigger] table_of(es2)[k] == table_of(
        es,
    ).insert(word, n)[k] by {
        let j = entry_index(es2, k);
        lemma_table_entry(es2, j);
        if j < es.len() {
            assert(es[j] == es2[j]);
            lemma_table_entry(es, j);
        }
    }
    assert(table_of(es2) =~= table_of(es).insert(word, n));
}

/// What a list of lines holds: each word with its count.
pub open spec fn entries_of(lines: Seq<WordCount>) -> Seq<(Seq<char>, nat)> {
    Seq::new(lines.len(), |i: int| (lines[i].word@, lines[i].count as nat))
}

/// In a merged table each word has the capped sum of its two counts.
pub proof fn lemma_merged_count(a: Counts, b: Counts, word: Seq<char>)
    ensures
        count_of(merged(a, b), word) == capped(count_of(a, word) + count_of(b, word)),
{
}

/// Merging is commutative: the order of the two tables does not matter.
pub proof fn lemma_merged_commutative(a: Counts, b: Counts)
    ensures
        merged(a, b) == merged(b, a),
{
    assert(merged(a, b) =~= merged(b, a));
}

/// Merging is associative: three tables merge to the same table however they are grouped.
pub proof fn lemma_merged_associative(a: Counts, b: Counts, c: Counts)
    ensures
        merged(merged(a, b), c) == merged(a, merged(b, c)),
{
    assert forall|w: Seq<char>|
        capped(count_of(merged(a, b), w) + count_of(c, w)) == capped(
            count_of(a, w) + count_of(merged(b, c), w),
        ) by {
        lemma_merged_count(a, b, w);
        lemma_merged_count(b, c, w);
    }
    assert(merged(merged(a, b), c) =~= merged(a, merged(b, c)));
}

/// Merging never lowers a count: each word of a valid table is counted in the merged table at
/// least as often as before.
pub proof fn lemma_merged_grows(a: Counts, b: Counts, word: Seq<char>)
    requires
        valid_counts(a),
    ensures
        count_of(merged(a, b), word) >= count_of(a, word),
{
}

/// Merging the empty table into a valid table changes nothing.
pub proof fn lemma_merged_empty(a: Counts)
    requires
        valid_counts(a),
    ensures
        merged(a, Map::empty()) == a,
        merged(Map::empty(), a) == a,
{
    assert(merged(a, Map::empty()) =~= a);
    assert(merged(Map::empty(), a) =~= a);
}

/// Merging two valid tables gives a valid table.
pub proof fn lemma_merged_valid(a: Counts, b: Counts)
    requires
        valid_counts(a),
        valid_counts(b),
    ensures
        valid_counts(merged(a, b)),
{
    assert(merged(a, b).dom() =~= a.dom().union(b.dom()));
    vstd::set::axiom_set_union_finite(a.dom(), b.dom());
}

/// Counting a word is merging the table that holds that word alone.
pub proof fn lemma_with_word_merged(m: Counts, word: Seq<char>, n: nat)
    requires
        valid_counts(m),
        n >= 1,
    ensures
        with_word(m, word, n) == merged(m, Map::<Seq<char>, nat>::empty().insert(word, capped(n))),
{
    let one = Map::<Seq<char>, nat>::empty().insert(word, capped(n));
    assert(with_word(m, word, n) =~= merged(m, one));
}

/// Merging the first `i + 1` entries of a list is counting entry `i` into the merge of the
/// first `i`.
proof fn lemma_merged_step(a: Counts, es: Seq<(Seq<char>, nat)>, i: int)
    requires
        valid_counts(a),
        distinct_words(es),
        0 <= i < es.len(),
        1 <= es[i].1 <= count_limit(),
    ensures
        merged(a, table_of(es.take(i + 1))) == with_word(
            merged(a, table_of(es.take(i))),
            es[i].0,
            es[i].1,
        ),
{
    let front = es.take(i);
    let w = es[i].0;
    let n = es[i].1;
    assert(distinct_words(front)) by {
        assert forall|x: int, y: int| 0 <= x < y < front.len() implies (#[trigger] front[x]).0 != (
        #[trigger] front[y]).0 by {
            assert(es[x].0 != es[y].0);
        }
    }
    assert(!has_entry(front, w)) by {
        if has_entry(front, w) {
            let j = entry_index(front, w);
            assert(es[j].0 != es[i].0);
        }
    }
    lemma_table_push(front, w, n);
    assert(front.push((w, n)) =~= es.take(i + 1));
    assert(merged(a, table_of(front).insert(w, n)) =~= with_word(
        merged(a, table_of(front)),
        w,
        n,
    ));
}

/// Counting a list of words into a valid table is merging the tally of that list.
pub proof fn lemma_tally_into_merged(m: Counts, words: Seq<Seq<char>>)
    requires
        valid_counts(m),
    ensures
        valid_counts(tally(words)),
        valid_counts(tally_into(m, words)),
        tally_into(m, words) == merged(m, tally(words)),
    decreases words.len(),
{
    let none = Map::<Seq<char>, nat>::empty();
    assert(valid_counts(none));
    if words.len() == 0 {
        lemma_merged_empty(m);
    } else {
        let front = words.drop_last();
        let w = words.last();
        lemma_tally_into_merged(m, front);
        let one = none.insert(w, capped(1));
        assert(valid_counts(one));
        lemma_with_word_merged(tally_into(m, front), w, 1);
        lemma_with_word_merged(tally(front), w, 1);
        lemma_merged_associative(m, tally(front), one);
    }
}

/// The words of a tally are the words already in the table and the words that were counted.
pub proof fn lemma_tally_into_dom(m: Counts, words: Seq<Seq<char>>)
    ensures
        forall|w: Seq<char>| #[trigger]
            tally_into(m, words).dom().contains(w) <==> m.dom().contains(w) || words.contains(w),
    decreases words.len(),
{
    if words.len() > 0 {
        let front = words.drop_last();
        let last = words.last();
        lemma_tally_into_dom(m, front);
        assert(tally_into(m, words).dom() =~= tally_into(m, front).dom().insert(last));
        assert forall|w: Seq<char>| words.contains(w) <==> front.contains(w) || w == last by {
            lemma_contains_last(words, w);
        }
    }
}

} // verus!
