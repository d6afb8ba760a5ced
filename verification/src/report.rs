//! The report: the counted words ranked by their counts, and the text that lists them.

use vstd::prelude::*;
use vstd::string::StringExecFns;
use crate::frequency::{
    distinct_words, entries_of, entry_index, lemma_table_entry, Counts, WordCount, WordFrequency,
};
use crate::text::{
    comes_before, lemma_text_before_total, lemma_text_before_transitive, text_before,
};

verus! {

/// Whether entry `a` stands before entry `b` in a report: the larger count first, and of two
/// entries with the same count the one whose word comes first in the dictionary.
pub open spec fn ranks_before(a: (Seq<char>, nat), b: (Seq<char>, nat)) -> bool {
    a.1 > b.1 || (a.1 == b.1 && text_before(a.0, b.0))
}

/// Whether `out` is the ranking of the table `m` with the threshold `min_count`: it lists the
/// words of the table that were counted at least `min_count` times, each with its count, and
/// each before every entry that it ranks before.
pub open spec fn is_ranking(m: Counts, min_count: nat, out: Seq<(Seq<char>, nat)>) -> bool {
    &&& forall|i: int, j: int|
        0 <= i < j < out.len() ==> ranks_before(#[trigger] out[i], #[trigger] out[j])
    &&& forall|e: (Seq<char>, nat)| #[trigger]
        out.contains(e) <==> m.dom().contains(e.0) && m[e.0] == e.1 && e.1 >= min_count
}

/// Of two entries for different words one ranks before the other, and never both; ranking
/// before is transitive.
pub proof fn lemma_ranks_before(a: (Seq<char>, nat), b: (Seq<char>, nat), c: (Seq<char>, nat))
    ensures
        a.0 != b.0 ==> ranks_before(a, b) || ranks_before(b, a),
        !(ranks_before(a, b) && ranks_before(b, a)),
        ranks_before(a, b) && ranks_before(b, c) ==> ranks_before(a, c),
{
    lemma_text_before_total(a.0, b.0);
    if ranks_before(a, b) && ranks_before(b, c) && a.1 == b.1 && b.1 == c.1 {
        lemma_text_before_transitive(a.0, b.0, c.0);
    }
}

/// Two lists that hold the same entries, each in ranking order, are the same list.
pub proof fn lemma_ordered_unique(a: Seq<(Seq<char>, nat)>, b: Seq<(Seq<char>, nat)>)
    requires
        forall|i: int, j: int|
            0 <= i < j < a.len() ==> ranks_before(#[trigger] a[i], #[trigger] a[j]),
        forall|i: int, j: int|
            0 <= i < j < b.len() ==> ranks_before(#[trigger] b[i], #[trigger] b[j]),
        forall|e: (Seq<char>, nat)| a.contains(e) <==> b.contains(e),
    ensures
        a == b,
    decreases a.len(),
{
    if a.len() == 0 {
        if b.len() > 0 {
            assert(b.contains(b[0]));
        }
        assert(a =~= b);
    } else {
        assert(a.contains(a[0]));
        let k = choose|k: int| 0 <= k < b.len() && b[k] == a[0];
        assert(b.contains(b[0]));
        let m = choose|m: int| 0 <= m < a.len() && a[m] == b[0];
        if k > 0 && m > 0 {
            assert(ranks_before(b[0], b[k]));
            assert(ranks_before(a[0], a[m]));
            lemma_ranks_before(a[0], b[0], a[0]);
        }
        assert(a[0] == b[0]);
        let ta = a.drop_first();
        let tb = b.drop_first();
        assert forall|e: (Seq<char>, nat)| ta.contains(e) <==> tb.contains(e) by {
            lemma_ranks_before(a[0], e, a[0]);
            if ta.contains(e) {
                let i = choose|i: int| 0 <= i < ta.len() && ta[i] == e;
                assert(a[i + 1] == e);
                assert(ranks_before(a[0], a[i + 1]));
                assert(b.contains(e));
                let j = choose|j: int| 0 <= j < b.len() && b[j] == e;
                assert(j > 0);
                assert(tb[j - 1] == e);
            }
            if tb.contains(e) {
                let i = choose|i: int| 0 <= i < tb.len() && tb[i] == e;
                assert(b[i + 1] == e);
                assert(ranks_before(b[0], b[i + 1]));
                assert(a.contains(e));
                let j = choose|j: int| 0 <= j < a.len() && a[j] == e;
                assert(j > 0);
                assert(ta[j - 1] == e);
            }
        }
        assert forall|i: int, j: int| 0 <= i < j < ta.len() implies ranks_before(
            #[trigger] ta[i],
            #[trigger] ta[j],
        ) by {
            assert(ranks_before(a[i + 1], a[j + 1]));
        }
        assert forall|i: int, j: int| 0 <= i < j < tb.len() implies ranks_before(
            #[trigger] tb[i],
            #[trigger] tb[j],
        ) by {
            assert(ranks_before(b[i + 1], b[j + 1]));
        }
        lemma_ordered_unique(ta, tb);
        assert(a =~= seq![a[0]] + ta);
        assert(b =~= seq![b[0]] + tb);
    }
}

/// A table has one ranking for each threshold: the ranking depends on the counts alone, not
/// on the order in which the words were counted.
pub proof fn lemma_ranking_unique(
    m: Counts,
    min_count: nat,
    a: Seq<(Seq<char>, nat)>,
    b: Seq<(Seq<char>, nat)>,
)
    requires
        is_ranking(m, min_count, a),
        is_ranking(m, min_count, b),
    ensures
        a == b,
{
    lemma_ordered_unique(a, b);
}

/// A ranking is in descending order of the counts, holds no entry below the threshold, and
/// holds each word once at most.
pub proof fn lemma_ranking_sorted(m: Counts, min_count: nat, out: Seq<(Seq<char>, nat)>)
    requires
        is_ranking(m, min_count, out),
    ensures
        forall|i: int, j: int|
            0 <= i < j < out.len() ==> (#[trigger] out[i]).1 >= (#[trigger] out[j]).1,
        forall|i: int| 0 <= i < out.len() ==> (#[trigger] out[i]).1 >= min_count,
        distinct_words(out),
{
    assert forall|i: int| 0 <= i < out.len() implies (#[trigger] out[i]).1 >= min_count by {
        assert(out.contains(out[i]));
    }
    assert forall|i: int, j: int| 0 <= i < j < out.len() implies (#[trigger] out[i]).0 != (
    #[trigger] out[j]).0 by {
        assert(ranks_before(out[i], out[j]));
        assert(out.contains(out[i]));
        assert(out.contains(out[j]));
        lemma_text_before_total(out[i].0, out[j].0);
    }
}

/// Decides whether `a` stands before `b` in a report.
pub fn ranks_first(a: &WordCount, b: &WordCount) -> (r: bool)
    ensures
        r == ranks_before((a.word@, a.count as nat), (b.word@, b.count as nat)),
{
    a.count > b.count || (a.count == b.count && comes_before(&a.word, &b.word))
}

/// Ranks a list of entries with distinct words: keeps those with a count of at least
/// `min_count`, and puts each before every entry that it ranks before.
fn rank_entries(entries: Vec<WordCount>, min_count: u32) -> (out: Vec<WordCount>)
    requires
        distinct_words(entries_of(entries@)),
    ensures
        forall|i: int, j: int|
            0 <= i < j < out@.len() ==> ranks_before(
                #[trigger] entries_of(out@)[i],
                #[trigger] entries_of(out@)[j],
            ),
        forall|e: (Seq<char>, nat)| #[trigger]
            entries_of(out@).contains(e) <==> entries_of(entries@).contains(e) && e.1 >= min_count,
{
    let ghost es = entries_of(entries@);
    let mut rest = entries;
    let mut out: Vec<WordCount> = Vec::new();
    let ghost mut from: Seq<int> = Seq::empty();
    loop
        invariant_except_break
            rest@.len() <= es.len(),
            entries_of(rest@) == es.take(rest@.len() as int),
        invariant
            distinct_words(es),
            from.len() == out@.len(),
            forall|q: int|
                0 <= q < from.len() ==> rest@.len() <= #[trigger] from[q] < es.len()
                    && entries_of(out@)[q] == es[from[q]],
            forall|i: int, j: int|
                0 <= i < j < out@.len() ==> ranks_before(
                    #[trigger] entries_of(out@)[i],
                    #[trigger] entries_of(out@)[j],
                ),
            forall|k: int|
                rest@.len() <= k < es.len() && es[k].1 >= min_count ==> #[trigger] from.contains(k),
            forall|q: int| 0 <= q < from.len() ==> es[#[trigger] from[q]].1 >= min_count,
        ensures
            rest@.len() == 0,
        decreases rest@.len(),
    {
        let ghost held = rest@;
        let item = match rest.pop() {
            Some(item) => item,
            None => {
                break ;
            },
        };
        let ghost k = rest@.len() as int;
        let ghost entry = (item.word@, item.count as nat);
        proof {
            assert(entries_of(rest@) =~= es.take(k));
            assert(entries_of(held)[k] == es[k]);
            assert(entry == es[k]);
        }
        if item.count >= min_count {
            let mut at: usize = 0;
            while at < out.len() && !ranks_first(&item, &out[at])
                invariant
                    at <= out@.len(),
                    entry == (item.word@, item.count as nat),
                    forall|q: int|
                        0 <= q < at ==> !ranks_before(entry, #[trigger] entries_of(out@)[q]),
                decreases out@.len() - at,
            {
                assert(entries_of(out@)[at as int] == (
                    out@[at as int].word@,
                    out@[at as int].count as nat,
                ));
                at += 1;
            }
            let ghost before = entries_of(out@);
            let ghost old_from = from;
            proof {
                if at < out.len() {
                    assert(before[at as int] == (
                        out@[at as int].word@,
                        out@[at as int].count as nat,
                    ));
                    assert(ranks_before(entry, before[at as int]));
                }
            }
            out.insert(at, item);
            proof {
                from = old_from.insert(at as int, k);
                let after = entries_of(out@);
                assert(after =~= before.insert(at as int, entry));
                assert forall|q: int| 0 <= q < from.len() implies k <= #[trigger] from[q] < es.len()
                    && after[q] == es[from[q]] by {
                    if q < at {
                        assert(from[q] == old_from[q]);
                    } else if q > at {
                        assert(from[q] == old_from[q - 1]);
                    }
                }
                assert forall|i: int, j: int| 0 <= i < j < after.len() implies ranks_before(
                    #[trigger] after[i],
                    #[trigger] after[j],
                ) by {
                    if i == at {
                        let b = j - 1;
                        assert(after[j] == before[b]);
                        if b > at {
                            assert(ranks_before(before[at as int], before[b]));
                        }
                        lemma_ranks_before(entry, before[at as int], before[b]);
                    } else if j == at {
                        assert(after[i] == before[i]);
                        assert(!ranks_before(entry, before[i]));
                        assert(before[i] == es[old_from[i]]);
                        assert(es[old_from[i]].0 != es[k].0);
                        lemma_ranks_before(before[i], entry, entry);
                    } else {
                        let a = if i < at {
                            i
                        } else {
                            i - 1
                        };
                        let b = if j < at {
                            j
                        } else {
                            j - 1
                        };
                        assert(after[i] == before[a]);
                        assert(after[j] == before[b]);
                    }
                }
                assert forall|m: int| k <= m < es.len() && es[m].1 >= min_count implies #[trigger] from.contains(
                    m,
                ) by {
                    if m == k {
                        assert(from[at as int] == k);
                    } else {
                        assert(old_from.contains(m));
                        let q = choose|q: int| 0 <= q < old_from.len() && old_from[q] == m;
                        if q < at {
                            assert(from[q] == m);
                        } else {
                            assert(from[q + 1] == m);
                        }
                    }
                }
                assert forall|q: int| 0 <= q < from.len() implies es[#[trigger] from[q]].1
                    >= min_count by {
                    if q < at {
                        assert(from[q] == old_from[q]);
                    } else if q > at {
                        assert(from[q] == old_from[q - 1]);
                    }
                }
            }
        }
    }
    proof {
        let got = entries_of(out@);
        assert forall|e: (Seq<char>, nat)| #[trigger] got.contains(e) <==> es.contains(e) && e.1
            >= min_count by {
            if got.contains(e) {
                let q = choose|q: int| 0 <= q < got.len() && got[q] == e;
                assert(es[from[q]] == e);
            }
            if es.contains(e) && e.1 >= min_count {
                let m = choose|m: int| 0 <= m < es.len() && es[m] == e;
                assert(from.contains(m));
                let q = choose|q: int| 0 <= q < from.len() && from[q] == m;
                assert(got[q] == e);
            }
        }
    }
    out
}

/// Ranks the words of a table: those counted at least `min_count` times, by descending count,
/// and words with the same count in the order of the dictionary.
pub fn rank(table: &WordFrequency, min_count: u32) -> (out: Vec<WordCount>)
    requires
        table.wf(),
    ensures
        is_ranking(table@, min_count as nat, entries_of(out@)),
{
    let ghost es = table.entries();
    proof {
        table.lemma_entries_distinct();
    }
    let out = rank_entries(table.to_vec(), min_count);
    proof {
        let got = entries_of(out@);
        assert forall|e: (Seq<char>, nat)| #[trigger]
            got.contains(e) <==> table@.dom().contains(e.0) && table@[e.0] == e.1 && e.1
                >= min_count by {
            if es.contains(e) {
                let k = choose|k: int| 0 <= k < es.len() && es[k] == e;
                lemma_table_entry(es, k);
            }
            if table@.dom().contains(e.0) && table@[e.0] == e.1 {
                let k = entry_index(es, e.0);
                assert(0 <= k < es.len() && es[k].0 == e.0);
                lemma_table_entry(es, k);
                assert(es[k] == e);
            }
        }
    }
    out
}

/// The character for the digit `d`.
pub open spec fn digit_char(d: nat) -> char {
    if d == 0 {
        '0'
    } else if d == 1 {
        '1'
    } else if d == 2 {
        '2'
    } else if d == 3 {
        '3'
    } else if d == 4 {
        '4'
    } else if d == 5 {
        '5'
    } else if d == 6 {
        '6'
    } else if d == 7 {
        '7'
    } else if d == 8 {
        '8'
    } else {
        '9'
    }
}

/// The decimal digits of `n`.
pub open spec fn decimal(n: nat) -> Seq<char>
    decreases n,
{
    if n < 10 {
        seq![digit_char(n)]
    } else {
        decimal(n / 10).push(digit_char(n % 10))
    }
}

/// The line of the report for one entry: the word, a colon and a space, and the count.
pub open spec fn line_of(e: (Seq<char>, nat)) -> Seq<char> {
    e.0 + ": "@ + decimal(e.1)
}

/// The text of the report: the lines of the entries, each closed by a line feed.
pub open spec fn report_of(es: Seq<(Seq<char>, nat)>) -> Seq<char>
    decreases es.len(),
{
    if es.len() == 0 {
        Seq::empty()
    } else {
        report_of(es.drop_last()) + line_of(es.last()).push('\n')
    }
}

/// Appends the decimal digits of `n` to `s`.
pub fn push_decimal(s: &mut String, n: u32)
    ensures
        final(s)@ == old(s)@ + decimal(n as nat),
    decreases n,
{
    if n >= 10 {
        push_decimal(s, n / 10);
    }
    let d = n % 10;
    let c = if d == 0 {
        '0'
    } else if d == 1 {
        '1'
    } else if d == 2 {
        '2'
    } else if d == 3 {
        '3'
    } else if d == 4 {
        '4'
    } else if d == 5 {
        '5'
    } else if d == 6 {
        '6'
    } else if d == 7 {
        '7'
    } else if d == 8 {
        '8'
    } else {
        '9'
    };
    s.push(c);
    assert(s@ =~= old(s)@ + decimal(n as nat));
}

/// Appends the line of the report for `item` to `s`, without a line feed.
pub fn push_line(s: &mut String, item: &WordCount)
    ensures
        final(s)@ == old(s)@ + line_of((item.word@, item.count as nat)),
{
    s.append(item.word.as_str());
    s.append(": ");
    push_decimal(s, item.count);
    proof {
        assert(s@ =~= old(s)@ + line_of((item.word@, item.count as nat)));
    }
}

/// The line of the report for `item`.
pub fn report_line(item: &WordCount) -> (line: String)
    ensures
        line@ == line_of((item.word@, item.count as nat)),
{
    let mut line = String::new();
    push_line(&mut line, item);
    proof {
        assert(Seq::<char>::empty() + line_of((item.word@, item.count as nat)) =~= line_of(
            (item.word@, item.count as nat),
        ));
    }
    line
}

/// The text of the report for a list of entries: one line for each, in the order given.
pub fn render(items: &Vec<WordCount>) -> (text: String)
    ensures
        text@ == report_of(entries_of(items@)),
{
    let ghost es = entries_of(items@);
    let mut text = String::new();
    let mut i: usize = 0;
    proof {
        assert(es.take(0) =~= Seq::<(Seq<char>, nat)>::empty());
    }
    while i < items.len()
        invariant
            i <= items@.len(),
            es == entries_of(items@),
            text@ == report_of(es.take(i as int)),
        decreases items@.len() - i,
    {
        let ghost sofar = text@;
        push_line(&mut text, &items[i]);
        text.push('\n');
        proof {
            assert(es.take(i + 1).drop_last() =~= es.take(i as int));
            assert(es.take(i + 1).last() == (items@[i as int].word@, items@[i as int].count as nat));
            assert(text@ =~= sofar + line_of(es[i as int]).push('\n'));
        }
        i += 1;
    }
    proof {
        assert(es.take(i as int) =~= es);
    }
    text
}

} // verus!
