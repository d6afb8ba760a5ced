use harvest::index::{hash_text, TextIndex};

#[test]
fn index_keeps_distinct_texts_in_order() {
    let mut index = TextIndex::new();
    assert_eq!(index.len(), 0);
    assert!(index.insert("b".to_string()));
    assert!(index.insert("a".to_string()));
    assert!(!index.insert("b".to_string()));
    assert!(index.insert(String::new()));
    assert_eq!(index.len(), 3);
    assert_eq!(index.get(0), "b");
    assert_eq!(index.get(1), "a");
    assert_eq!(index.get(2), "");
}

#[test]
fn index_finds_what_was_added() {
    let mut index = TextIndex::new();
    for i in 0..500 {
        index.push(format!("word{}", i));
    }
    assert_eq!(index.len(), 500);
    for i in 0..500 {
        assert_eq!(index.position(&format!("word{}", i)), Some(i));
    }
    assert_eq!(index.position(&"word500".to_string()), None);
    assert!(index.contains(&"word42".to_string()));
    assert!(!index.contains(&"Word42".to_string()));
    assert!(!index.contains(&String::new()));
}

#[test]
fn index_tells_apart_texts_filed_under_one_number() {
    // With the number of a text being 31 times the number of the text in front of its last
    // character plus that character, "Aa" and "BB" are filed under the same number.
    let a = "Aa".to_string();
    let b = "BB".to_string();
    assert_eq!(hash_text(&a), hash_text(&b));
    let mut index = TextIndex::new();
    index.push(a.clone());
    assert!(!index.contains(&b));
    index.push(b.clone());
    assert_eq!(index.position(&a), Some(0));
    assert_eq!(index.position(&b), Some(1));
}

#[test]
fn hash_is_exact() {
    assert_eq!(hash_text(&String::new()), 0);
    assert_eq!(hash_text(&"a".to_string()), 97);
    assert_eq!(hash_text(&"ab".to_string()), 97 * 31 + 98);
    let long = "z".repeat(40);
    let mut expected: u64 = 0;
    for _ in 0..40 {
        expected = expected.wrapping_mul(31).wrapping_add(122);
    }
    assert_eq!(hash_text(&long), expected);
}
