use harvest::frequency::WordFrequency;
use harvest::text::{chars_of, contains_text, same_text, string_of, tokens, trim};
use harvest::words::{accepts, candidates, count_text, count_words, is_word_char, CommonWords};
use regex::Regex;

fn strings(items: &[&str]) -> Vec<String> {
    items.iter().map(|s| s.to_string()).collect()
}

#[test]
fn chars_of_lists_the_characters() {
    assert_eq!(chars_of("héllo"), vec!['h', 'é', 'l', 'l', 'o']);
    assert_eq!(chars_of(""), Vec::<char>::new());
}

#[test]
fn string_of_takes_a_range() {
    let v = vec!['a', 'b', 'c', 'd'];
    assert_eq!(string_of(&v, 1, 3), "bc");
    assert_eq!(string_of(&v, 0, 4), "abcd");
    assert_eq!(string_of(&v, 2, 2), "");
}

#[test]
fn same_text_compares_characters() {
    assert!(same_text(&"abc".to_string(), &"abc".to_string()));
    assert!(!same_text(&"abc".to_string(), &"abd".to_string()));
    assert!(!same_text(&"abc".to_string(), &"ab".to_string()));
}

#[test]
fn contains_text_finds_an_item() {
    let v = strings(&["one", "two"]);
    assert!(contains_text(&v, &"two".to_string()));
    assert!(!contains_text(&v, &"three".to_string()));
    assert!(!contains_text(&Vec::new(), &"one".to_string()));
}

#[test]
fn tokens_are_split_on_whitespace() {
    assert_eq!(tokens("  Quick\tbrown \n fox  "), strings(&["Quick", "brown", "fox"]));
    assert_eq!(tokens("single"), strings(&["single"]));
    assert_eq!(tokens(""), Vec::<String>::new());
    assert_eq!(tokens(" \t\n"), Vec::<String>::new());
    // The em space and the ideographic space are whitespace too.
    assert_eq!(tokens("a\u{2003}b\u{3000}c"), strings(&["a", "b", "c"]));
}

#[test]
fn tokens_agree_with_split_whitespace() {
    for text in ["", " ", "a", " a", "a ", "a b", "\ta\n\nb  c\r\n", "x\u{85}y\u{a0}z", "é  ü"] {
        let expected: Vec<String> = text.split_whitespace().map(String::from).collect();
        assert_eq!(tokens(text), expected, "for {:?}", text);
    }
}

#[test]
fn trim_agrees_with_str_trim() {
    for text in ["", " ", "a", "  a b  ", "\t\na\r\n", "\u{2003}x y\u{3000}", "no-space"] {
        assert_eq!(trim(text), text.trim(), "for {:?}", text);
    }
    assert_eq!(trim("  Name  "), "Name");
}

#[test]
fn candidates_are_composed_and_lowercased() {
    // "e" with a combining acute accent composes to one character, and the angstrom sign to
    // the letter A with a ring, which is then lowercased.
    assert_eq!(
        candidates("Cafe\u{301} \u{212B} QUICK"),
        strings(&["caf\u{e9}", "\u{e5}", "quick"])
    );
    assert_eq!(candidates("  "), Vec::<String>::new());
}

#[test]
fn word_chars_are_letters_and_the_apostrophe() {
    for c in ['a', 'z', 'A', 'Z', 'm', '\''] {
        assert!(is_word_char(c), "{:?}", c);
    }
    for c in ['0', '9', '-', '_', ' ', 'é', '`', '{', '@', '[', '.', '\u{2019}'] {
        assert!(!is_word_char(c), "{:?}", c);
    }
}

#[test]
fn policy_rejects_whole_tokens() {
    let none = CommonWords::none();
    assert!(accepts(&"don't".to_string(), 1, &none));
    assert!(accepts(&"word".to_string(), 4, &none));
    assert!(!accepts(&"word".to_string(), 5, &none));
    assert!(!accepts(&"".to_string(), 0, &none));
    assert!(!accepts(&"word.".to_string(), 1, &none));
    assert!(!accepts(&"w0rd".to_string(), 1, &none));
    assert!(!accepts(&"half-way".to_string(), 1, &none));
    assert!(!accepts(&"caf\u{e9}".to_string(), 1, &none));
    let common = CommonWords::from_text("word\n", 10);
    assert!(!accepts(&"word".to_string(), 1, &common));
    assert!(accepts(&"words".to_string(), 1, &common));
}

#[test]
fn policy_agrees_with_the_character_class_pattern() {
    let pattern = Regex::new(r"[^a-zA-Z']+").unwrap();
    let none = CommonWords::none();
    for word in ["abc", "ABC", "don't", "a1", "a-b", "", "'", "x y", "é", "naïve", "a.b", "zZ", "~"]
    {
        let expected = !pattern.is_match(word) && !word.is_empty();
        assert_eq!(accepts(&word.to_string(), 0, &none), expected, "for {:?}", word);
    }
}

#[test]
fn text_is_counted_word_by_word() {
    let mut table = WordFrequency::new();
    let common = CommonWords::from_text("the\n", 10);
    count_text(&mut table, "The quick fox; the Quick, quick dog's 42 x", 3, &common);
    assert_eq!(table.get(&"quick".to_string()), 2);
    assert_eq!(table.get(&"dog's".to_string()), 1);
    assert_eq!(table.get(&"the".to_string()), 0);
    assert_eq!(table.get(&"fox;".to_string()), 0);
    assert_eq!(table.get(&"fox".to_string()), 0);
    assert_eq!(table.get(&"quick,".to_string()), 0);
    assert_eq!(table.len(), 2);
}

#[test]
fn words_are_counted_into_an_existing_table() {
    let mut table = WordFrequency::new();
    table.add("fox".to_string(), 5);
    count_words(&mut table, &strings(&["fox", "hen", "fox", "a"]), 2, &CommonWords::none());
    assert_eq!(table.get(&"fox".to_string()), 7);
    assert_eq!(table.get(&"hen".to_string()), 1);
    assert_eq!(table.len(), 2);
}

#[test]
fn dictionary_keeps_the_first_lines() {
    let text = "the\nof\r\nand\nto";
    let all = CommonWords::from_text(text, 1000);
    for word in ["the", "of", "and", "to"] {
        assert!(all.contains(&word.to_string()), "{}", word);
    }
    assert!(!all.contains(&"of\r".to_string()));
    let two = CommonWords::from_text(text, 2);
    assert!(two.contains(&"the".to_string()));
    assert!(two.contains(&"of".to_string()));
    assert!(!two.contains(&"and".to_string()));
    assert!(!two.contains(&"to".to_string()));
    let none = CommonWords::from_text(text, 0);
    assert!(!none.contains(&"the".to_string()));
}

#[test]
fn dictionary_lines_are_those_of_str_lines() {
    for text in ["", "a", "a\n", "a\nb", "a\r\nb\r\n", "a\n\nb", "\n", "a\r", "a\r\n\r\nb"] {
        let words = CommonWords::from_text(text, usize::MAX);
        for line in text.lines() {
            assert!(words.contains(&line.to_string()), "{:?} of {:?}", line, text);
        }
        if !text.lines().any(|line| line.is_empty()) {
            assert!(!words.contains(&String::new()), "empty line of {:?}", text);
        }
    }
}

#[test]
fn empty_dictionary_holds_nothing() {
    assert!(!CommonWords::none().contains(&"the".to_string()));
    assert!(!CommonWords::none().contains(&String::new()));
}

#[test]
fn whitespace_is_what_the_tokeniser_splits_on() {
    let spaces = [
        0x9, 0xa, 0xb, 0xc, 0xd, 0x20, 0x85, 0xa0, 0x1680, 0x2000, 0x2001, 0x2002, 0x2003, 0x2004,
        0x2005, 0x2006, 0x2007, 0x2008, 0x2009, 0x200a, 0x2028, 0x2029, 0x202f, 0x205f, 0x3000,
    ];
    let mut text = String::new();
    for code in 0u32..=0x10ffff {
        let Some(c) = char::from_u32(code) else {
            continue;
        };
        assert_eq!(c.is_whitespace(), spaces.contains(&code), "U+{:04X}", code);
        text.clear();
        text.push('a');
        text.push(c);
        text.push('b');
        let split = tokens(&text).len() == 2;
        assert_eq!(split, spaces.contains(&code), "U+{:04X}", code);
    }
}
