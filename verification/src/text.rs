//! Character classes and the string primitives the tokeniser is built on.

use vstd::prelude::*;
use vstd::std_specs::iter::IteratorSpec;

verus! {

/// Whether `c` has the Unicode `White_Space` property: it is one of the controls from the tab to
/// the carriage return, the space, the next-line control, the no-break space, the ogham space
/// mark, one of the spaces from the en quad to the hair space, the line or the paragraph
/// separator, the narrow no-break space, the medium mathematical space or the ideographic space.
pub open spec fn white_space(c: char) -> bool {
    ||| ('\u{9}' <= c && c <= '\u{d}')
    ||| c == ' '
    ||| c == '\u{85}'
    ||| c == '\u{a0}'
    ||| c == '\u{1680}'
    ||| ('\u{2000}' <= c && c <= '\u{200a}')
    ||| c == '\u{2028}'
    ||| c == '\u{2029}'
    ||| c == '\u{202f}'
    ||| c == '\u{205f}'
    ||| c == '\u{3000}'
}

/// The lowercase form of a string, as `str::to_lowercase` computes it.
pub uninterp spec fn lowercase_of(s: Seq<char>) -> Seq<char>;

/// The lowercase form of an ASCII capital letter; any other character as it is.
pub open spec fn ascii_lower(c: char) -> char {
    if 'A' <= c && c <= 'Z' {
        ((c as u32) + 32) as char
    } else {
        c
    }
}

/// A text with each ASCII capital letter in its lowercase form.
pub open spec fn ascii_lowered(s: Seq<char>) -> Seq<char> {
    Seq::new(s.len(), |i: int| ascii_lower(s[i]))
}

/// A text without ASCII capital letters.
pub open spec fn no_capitals(s: Seq<char>) -> bool {
    forall|i: int| 0 <= i < s.len() ==> !('A' <= #[trigger] s[i] && s[i] <= 'Z')
}

/// Lowering the ASCII capital letters of a text leaves none, and changes nothing in a text that
/// has none.
pub proof fn lemma_ascii_lowered(s: Seq<char>)
    ensures
        no_capitals(ascii_lowered(s)),
        no_capitals(s) ==> ascii_lowered(s) == s,
{
    assert forall|i: int| 0 <= i < s.len() implies !('A' <= #[trigger] ascii_lowered(s)[i]
        && ascii_lowered(s)[i] <= 'Z') by {
        let c = s[i];
        if 'A' <= c && c <= 'Z' {
            assert(ascii_lower(c) as u32 == c as u32 + 32);
        }
    }
    if no_capitals(s) {
        assert(ascii_lowered(s) =~= s);
    }
}

/// `char::is_whitespace`: whether `c` has the `White_Space` property of Unicode, which the 25
/// characters have that `white_space` lists.
pub assume_specification[ char::is_whitespace ](c: char) -> (b: bool)
    ensures
        b == white_space(c),
;

/// `str::to_lowercase`: the result is the lowercase form of `s`. As the lowercase form it
/// holds no ASCII capital letter.
pub assume_specification[ str::to_lowercase ](s: &str) -> (r: String)
    ensures
        r@ == lowercase_of(s@),
        no_capitals(r@),
;

/// `String::push`: appends `c` to the end of the string.
pub assume_specification[ String::push ](s: &mut String, c: char)
    ensures
        final(s)@ == old(s)@.push(c),
;

/// `str` equality: whether two string slices hold the same characters.
pub assume_specification[ <str as PartialEq>::eq ](a: &str, b: &str) -> (r: bool)
    ensures
        r == (a@ == b@),
;

/// The characters of `s`, in order.
pub fn chars_of(s: &str) -> (v: Vec<char>)
    ensures
        v@ == s@,
{
    let mut v: Vec<char> = Vec::new();
    let mut it = s.chars();
    loop
        invariant_except_break
            v@ + it.remaining() == s@,
            it.decrease() is Some,
        ensures
            v@ == s@,
        decreases it.decrease()->0,
    {
        let ghost before = it.remaining();
        let ghost done = v@;
        match it.next() {
            Some(c) => {
                v.push(c);
                assert(v@ + it.remaining() =~= done + before);
            },
            None => {
                assert(v@ + before =~= v@);
                break;
            },
        }
    }
    v
}

/// The string made of the characters `v[from..to]`.
pub fn string_of(v: &Vec<char>, from: usize, to: usize) -> (s: String)
    requires
        from <= to <= v.len(),
    ensures
        s@ == v@.subrange(from as int, to as int),
{
    let mut s = String::new();
    let mut i: usize = from;
    while i < to
        invariant
            from <= i <= to <= v.len(),
            s@ == v@.subrange(from as int, i as int),
        decreases to - i,
    {
        s.push(v[i]);
        i += 1;
    }
    s
}

/// Whether two strings hold the same characters.
pub fn same_text(a: &String, b: &String) -> (r: bool)
    ensures
        r == (a@ == b@),
{
    *a == *b
}

/// The views of a list of strings.
pub open spec fn views(v: Seq<String>) -> Seq<Seq<char>> {
    Seq::new(v.len(), |i: int| v[i]@)
}

/// The view of a string that may be missing.
pub open spec fn opt_view(s: Option<String>) -> Option<Seq<char>> {
    match s {
        Some(t) => Some(t@),
        None => None,
    }
}

/// A list that was lengthened by `y` holds an item exactly when the list held it before or the
/// item is `y`.
pub proof fn lemma_contains_push<A>(s: Seq<A>, y: A, x: A)
    ensures
        s.push(y).contains(x) <==> s.contains(x) || x == y,
{
    let t = s.push(y);
    if s.contains(x) {
        let i = choose|i: int| 0 <= i < s.len() && s[i] == x;
        assert(t[i] == x);
    }
    if t.contains(x) {
        let i = choose|i: int| 0 <= i < t.len() && t[i] == x;
        if i < s.len() {
            assert(s[i] == x);
        }
    }
    if x == y {
        assert(t[s.len() as int] == x);
    }
}

/// A list holds an item exactly when its front holds it or the item is its last one.
pub proof fn lemma_contains_last<A>(s: Seq<A>, x: A)
    requires
        s.len() > 0,
    ensures
        s.contains(x) <==> s.drop_last().contains(x) || x == s.last(),
{
    assert(s =~= s.drop_last().push(s.last()));
    lemma_contains_push(s.drop_last(), s.last(), x);
}

/// Whether the list `v` holds a string with the characters of `s`.
pub fn contains_text(v: &Vec<String>, s: &String) -> (r: bool)
    ensures
        r == views(v@).contains(s@),
{
    let mut i: usize = 0;
    while i < v.len()
        invariant
            i <= v@.len(),
            forall|k: int| 0 <= k < i ==> (#[trigger] v@[k])@ != s@,
        decreases v@.len() - i,
    {
        if same_text(&v[i], s) {
            assert(views(v@)[i as int] == s@);
            return true;
        }
        i += 1;
    }
    assert(!views(v@).contains(s@)) by {
        if views(v@).contains(s@) {
            let k = choose|k: int| 0 <= k < views(v@).len() && views(v@)[k] == s@;
            assert(v@[k]@ == s@);
        }
    }
    false
}

/// How many characters at the start of `s` come before the first whitespace character.
pub open spec fn word_len(s: Seq<char>) -> nat
    decreases s.len(),
{
    if s.len() == 0 || white_space(s[0]) {
        0
    } else {
        1 + word_len(s.drop_first())
    }
}

/// The maximal runs of non-whitespace characters of `s`, in the order in which they occur.
pub open spec fn split_whitespace(s: Seq<char>) -> Seq<Seq<char>>
    decreases s.len(),
{
    if s.len() == 0 {
        Seq::empty()
    } else if white_space(s[0]) {
        split_whitespace(s.drop_first())
    } else {
        let n = word_len(s) as int;
        if 0 < n <= s.len() {
            seq![s.take(n)] + split_whitespace(s.skip(n))
        } else {
            Seq::empty()
        }
    }
}

/// A run of `word_len` characters is in bounds, holds no whitespace, and stops at the end of the
/// text or in front of a whitespace character.
pub proof fn lemma_word_len(s: Seq<char>)
    ensures
        word_len(s) <= s.len(),
        forall|i: int| 0 <= i < word_len(s) ==> !white_space(#[trigger] s[i]),
        word_len(s) < s.len() ==> white_space(s[word_len(s) as int]),
        s.len() > 0 && !white_space(s[0]) ==> word_len(s) > 0,
    decreases s.len(),
{
    if s.len() != 0 && !white_space(s[0]) {
        let t = s.drop_first();
        lemma_word_len(t);
        assert forall|i: int| 0 <= i < word_len(s) implies !white_space(#[trigger] s[i]) by {
            if i > 0 {
                assert(s[i] == t[i - 1]);
            }
        }
        if word_len(s) < s.len() {
            assert(s[word_len(s) as int] == t[word_len(t) as int]);
        }
    }
}

/// A token: a non-empty run of characters, none of them whitespace.
pub open spec fn is_token(t: Seq<char>) -> bool {
    t.len() > 0 && forall|i: int| 0 <= i < t.len() ==> !white_space(#[trigger] t[i])
}

/// Every item that `split_whitespace` yields is a token.
pub proof fn lemma_split_whitespace_tokens(s: Seq<char>)
    ensures
        forall|k: int|
            0 <= k < split_whitespace(s).len() ==> is_token(#[trigger] split_whitespace(s)[k]),
    decreases s.len(),
{
    if s.len() == 0 {
        assert(split_whitespace(s).len() == 0);
    } else if white_space(s[0]) {
        lemma_split_whitespace_tokens(s.drop_first());
        assert(split_whitespace(s) == split_whitespace(s.drop_first()));
    } else {
        lemma_word_len(s);
        let n = word_len(s) as int;
        lemma_split_whitespace_tokens(s.skip(n));
        let rest = split_whitespace(s.skip(n));
        let all = split_whitespace(s);
        assert(all == seq![s.take(n)] + rest);
        assert forall|k: int| 0 <= k < all.len() implies is_token(#[trigger] all[k]) by {
            if k > 0 {
                assert(all[k] == rest[k - 1]);
            } else {
                assert(all[0] == s.take(n));
            }
        }
    }
}

/// Splits `text` on whitespace into its tokens, as `str::split_whitespace` does.
pub fn tokens(text: &str) -> (out: Vec<String>)
    ensures
        views(out@) == split_whitespace(text@),
{
    let v = chars_of(text);
    let mut out: Vec<String> = Vec::new();
    let mut i: usize = 0;
    proof {
        assert(v@.skip(0) =~= v@);
        assert(views(out@) + split_whitespace(v@) =~= split_whitespace(v@));
    }
    while i < v.len()
        invariant
            i <= v.len(),
            v@ == text@,
            views(out@) + split_whitespace(v@.skip(i as int)) == split_whitespace(v@),
        decreases v.len() - i,
    {
        let ghost rest = v@.skip(i as int);
        if v[i].is_whitespace() {
            assert(rest.drop_first() =~= v@.skip(i + 1));
            i += 1;
        } else {
            let mut j: usize = i + 1;
            proof {
                lemma_word_len(rest);
            }
            while j < v.len() && !v[j].is_whitespace()
                invariant
                    i < j <= v.len(),
                    rest == v@.skip(i as int),
                    j - i <= word_len(rest),
                    word_len(rest) <= rest.len(),
                    forall|k: int| 0 <= k < word_len(rest) ==> !white_space(#[trigger] rest[k]),
                    word_len(rest) < rest.len() ==> white_space(rest[word_len(rest) as int]),
                decreases v.len() - j,
            {
                assert(rest[j - i] == v@[j as int]);
                j += 1;
            }
            assert(j - i == word_len(rest)) by {
                if j < v.len() {
                    assert(rest[j - i] == v@[j as int]);
                }
            }
            let word = string_of(&v, i, j);
            let ghost done = views(out@);
            out.push(word);
            proof {
                let n = word_len(rest) as int;
                assert(rest.take(n) =~= v@.subrange(i as int, j as int));
                assert(rest.skip(n) =~= v@.skip(j as int));
                assert(views(out@) =~= done + seq![rest.take(n)]);
                assert(views(out@) + split_whitespace(v@.skip(j as int)) =~= done
                    + split_whitespace(rest));
            }
            i = j;
        }
    }
    proof {
        assert(views(out@) + Seq::<Seq<char>>::empty() =~= views(out@));
    }
    out
}

/// How many whitespace characters stand at the start of `s`.
pub open spec fn leading_space(s: Seq<char>) -> nat
    decreases s.len(),
{
    if s.len() == 0 || !white_space(s[0]) {
        0
    } else {
        1 + leading_space(s.drop_first())
    }
}

/// How many whitespace characters stand at the end of `s`.
pub open spec fn trailing_space(s: Seq<char>) -> nat
    decreases s.len(),
{
    if s.len() == 0 || !white_space(s.last()) {
        0
    } else {
        1 + trailing_space(s.drop_last())
    }
}

/// `s` without the whitespace at its start and at its end.
pub open spec fn trimmed(s: Seq<char>) -> Seq<char> {
    let t = s.skip(leading_space(s) as int);
    t.take(t.len() - trailing_space(t))
}

/// The leading whitespace of a text is in bounds, is whitespace throughout, and stops at the
/// end of the text or in front of another character.
pub proof fn lemma_leading_space(s: Seq<char>)
    ensures
        leading_space(s) <= s.len(),
        forall|i: int| 0 <= i < leading_space(s) ==> white_space(#[trigger] s[i]),
        leading_space(s) < s.len() ==> !white_space(s[leading_space(s) as int]),
    decreases s.len(),
{
    if s.len() != 0 && white_space(s[0]) {
        let t = s.drop_first();
        lemma_leading_space(t);
        assert forall|i: int| 0 <= i < leading_space(s) implies white_space(#[trigger] s[i]) by {
            if i > 0 {
                assert(s[i] == t[i - 1]);
            }
        }
        if leading_space(s) < s.len() {
            assert(s[leading_space(s) as int] == t[leading_space(t) as int]);
        }
    }
}

/// The trailing whitespace of a text is in bounds, is whitespace throughout, and stops at the
/// start of the text or behind another character.
pub proof fn lemma_trailing_space(s: Seq<char>)
    ensures
        trailing_space(s) <= s.len(),
        forall|i: int| s.len() - trailing_space(s) <= i < s.len() ==> white_space(#[trigger] s[i]),
        trailing_space(s) < s.len() ==> !white_space(s[s.len() - trailing_space(s) - 1]),
    decreases s.len(),
{
    if s.len() != 0 && white_space(s.last()) {
        let t = s.drop_last();
        lemma_trailing_space(t);
        assert forall|i: int| s.len() - trailing_space(s) <= i < s.len() implies white_space(
            #[trigger] s[i],
        ) by {
            if i < s.len() - 1 {
                assert(s[i] == t[i]);
            }
        }
        if trailing_space(s) < s.len() {
            assert(s[s.len() - trailing_space(s) - 1] == t[t.len() - trailing_space(t) - 1]);
        }
    }
}

/// The characters `v[from..to]` without the whitespace at their start and at their end.
pub fn trim_range(v: &Vec<char>, from: usize, to: usize) -> (r: String)
    requires
        from <= to <= v.len(),
    ensures
        r@ == trimmed(v@.subrange(from as int, to as int)),
{
    let ghost s = v@.subrange(from as int, to as int);
    proof {
        lemma_leading_space(s);
    }
    let mut i: usize = from;
    while i < to && v[i].is_whitespace()
        invariant
            from <= i <= to <= v.len(),
            s == v@.subrange(from as int, to as int),
            i - from <= leading_space(s) <= s.len(),
            forall|k: int| 0 <= k < leading_space(s) ==> white_space(#[trigger] s[k]),
            leading_space(s) < s.len() ==> !white_space(s[leading_space(s) as int]),
        decreases to - i,
    {
        assert(s[i - from] == v@[i as int]);
        i += 1;
    }
    assert(i - from == leading_space(s)) by {
        if i < to {
            assert(s[i - from] == v@[i as int]);
        }
    }
    let ghost t = s.skip(leading_space(s) as int);
    proof {
        lemma_trailing_space(t);
        assert(t =~= v@.subrange(i as int, to as int));
    }
    let mut j: usize = to;
    while j > i && v[j - 1].is_whitespace()
        invariant
            i <= j <= to <= v.len(),
            t == v@.subrange(i as int, to as int),
            to - j <= trailing_space(t) <= t.len(),
            forall|k: int|
                t.len() - trailing_space(t) <= k < t.len() ==> white_space(#[trigger] t[k]),
            trailing_space(t) < t.len() ==> !white_space(t[t.len() - trailing_space(t) - 1]),
        decreases j,
    {
        assert(t[j - 1 - i] == v@[j - 1]);
        j -= 1;
    }
    assert(to - j == trailing_space(t)) by {
        if j > i {
            assert(t[j - 1 - i] == v@[j - 1]);
        }
    }
    proof {
        assert(t.take(t.len() - trailing_space(t)) =~= v@.subrange(i as int, j as int));
    }
    string_of(v, i, j)
}

/// `text` without the whitespace at its start and at its end, as `str::trim` gives it.
pub fn trim(text: &str) -> (r: String)
    ensures
        r@ == trimmed(text@),
{
    let v = chars_of(text);
    proof {
        assert(v@.subrange(0, v@.len() as int) =~= v@);
    }
    trim_range(&v, 0, v.len())
}

/// Whether `a` stands before `b` in the order of a dictionary: at the first place where the two
/// differ `a` has the lesser character, or `a` ends there and `b` goes on.
pub open spec fn text_before(a: Seq<char>, b: Seq<char>) -> bool
    decreases a.len(),
{
    if b.len() == 0 {
        false
    } else if a.len() == 0 {
        true
    } else if a[0] != b[0] {
        a[0] < b[0]
    } else {
        text_before(a.drop_first(), b.drop_first())
    }
}

/// Of two texts that differ, one stands before the other, and never both; no text stands
/// before itself.
pub proof fn lemma_text_before_total(a: Seq<char>, b: Seq<char>)
    ensures
        a != b ==> text_before(a, b) || text_before(b, a),
        !(text_before(a, b) && text_before(b, a)),
        a == b ==> !text_before(a, b),
    decreases a.len(),
{
    if a.len() > 0 && b.len() > 0 && a[0] == b[0] {
        lemma_text_before_total(a.drop_first(), b.drop_first());
        if a.drop_first() == b.drop_first() {
            assert(a =~= seq![a[0]] + a.drop_first());
            assert(b =~= seq![b[0]] + b.drop_first());
        }
    } else if a.len() == 0 && b.len() == 0 {
        assert(a =~= b);
    }
}

/// The order of the dictionary is transitive.
pub proof fn lemma_text_before_transitive(a: Seq<char>, b: Seq<char>, c: Seq<char>)
    requires
        text_before(a, b),
        text_before(b, c),
    ensures
        text_before(a, c),
    decreases a.len(),
{
    if a.len() > 0 && a[0] == b[0] && b[0] == c[0] {
        lemma_text_before_transitive(a.drop_first(), b.drop_first(), c.drop_first());
    }
}

/// Decides whether `a` stands before `b` in the order of a dictionary.
pub fn comes_before(a: &String, b: &String) -> (r: bool)
    ensures
        r == text_before(a@, b@),
{
    let x = chars_of(a.as_str());
    let y = chars_of(b.as_str());
    let mut i: usize = 0;
    proof {
        assert(x@.skip(0) =~= x@);
        assert(y@.skip(0) =~= y@);
    }
    while i < x.len() && i < y.len()
        invariant
            i <= x.len(),
            i <= y.len(),
            x@ == a@,
            y@ == b@,
            text_before(a@, b@) == text_before(x@.skip(i as int), y@.skip(i as int)),
        decreases x.len() - i,
    {
        proof {
            assert(x@.skip(i as int).drop_first() =~= x@.skip(i + 1));
            assert(y@.skip(i as int).drop_first() =~= y@.skip(i + 1));
            assert(x@.skip(i as int)[0] == x@[i as int]);
            assert(y@.skip(i as int)[0] == y@[i as int]);
        }
        if x[i] != y[i] {
            return x[i] < y[i];
        }
        i += 1;
    }
    i < y.len()
}

} // verus!
