use harvest::frequency::{WordCount, WordFrequency};

fn table(items: &[(&str, u32)]) -> WordFrequency {
    let mut t = WordFrequency::new();
    for (word, count) in items {
        t.add(word.to_string(), *count);
    }
    t
}

fn pairs(t: &WordFrequency) -> Vec<(String, u32)> {
    let mut v: Vec<(String, u32)> =
        t.to_vec().into_iter().map(|WordCount { word, count }| (word, count)).collect();
    v.sort();
    v
}

#[test]
fn new_table_is_empty() {
    let t = WordFrequency::new();
    assert_eq!(t.len(), 0);
    assert_eq!(t.get(&"any".to_string()), 0);
    assert!(t.to_vec().is_empty());
}

#[test]
fn add_sums_the_counts_of_a_word() {
    let mut t = WordFrequency::new();
    t.add("fox".to_string(), 1);
    t.add("hen".to_string(), 2);
    t.add("fox".to_string(), 3);
    assert_eq!(t.get(&"fox".to_string()), 4);
    assert_eq!(t.get(&"hen".to_string()), 2);
    assert_eq!(t.len(), 2);
}

#[test]
fn add_of_zero_adds_no_word() {
    let mut t = WordFrequency::new();
    t.add("fox".to_string(), 0);
    assert_eq!(t.len(), 0);
    t.add("fox".to_string(), 2);
    t.add("fox".to_string(), 0);
    assert_eq!(t.get(&"fox".to_string()), 2);
}

#[test]
fn count_stays_at_the_limit() {
    let mut t = WordFrequency::new();
    t.add("fox".to_string(), u32::MAX - 1);
    t.add("fox".to_string(), 1);
    assert_eq!(t.get(&"fox".to_string()), u32::MAX);
    t.add("fox".to_string(), 7);
    assert_eq!(t.get(&"fox".to_string()), u32::MAX);
    let mut other = table(&[("fox", 3), ("hen", u32::MAX)]);
    other.merge(&table(&[("hen", u32::MAX)]));
    other.merge(&t);
    assert_eq!(other.get(&"fox".to_string()), u32::MAX);
    assert_eq!(other.get(&"hen".to_string()), u32::MAX);
}

#[test]
fn to_vec_keeps_the_order_of_first_counting() {
    let t = table(&[("b", 1), ("a", 2), ("b", 3), ("c", 1)]);
    let listed: Vec<(String, u32)> = t.to_vec().into_iter().map(|e| (e.word, e.count)).collect();
    assert_eq!(
        listed,
        vec![("b".to_string(), 4), ("a".to_string(), 2), ("c".to_string(), 1)]
    );
}

#[test]
fn merge_sums_word_by_word() {
    let mut a = table(&[("quick", 2), ("fox", 1)]);
    let b = table(&[("fox", 1), ("jumps", 1)]);
    a.merge(&b);
    assert_eq!(
        pairs(&a),
        vec![("fox".to_string(), 2), ("jumps".to_string(), 1), ("quick".to_string(), 2)]
    );
    assert_eq!(pairs(&b), vec![("fox".to_string(), 1), ("jumps".to_string(), 1)]);
}

#[test]
fn merge_with_the_empty_table_changes_nothing() {
    let mut a = table(&[("quick", 2), ("fox", 1)]);
    a.merge(&WordFrequency::new());
    assert_eq!(pairs(&a), vec![("fox".to_string(), 1), ("quick".to_string(), 2)]);
    let mut e = WordFrequency::new();
    e.merge(&a);
    assert_eq!(pairs(&e), pairs(&a));
}

#[test]
fn merge_is_commutative() {
    let items_a = [("x", 1), ("y", 5), ("z", u32::MAX - 2)];
    let items_b = [("y", 2), ("z", 9), ("w", 4)];
    let mut ab = table(&items_a);
    ab.merge(&table(&items_b));
    let mut ba = table(&items_b);
    ba.merge(&table(&items_a));
    assert_eq!(pairs(&ab), pairs(&ba));
    assert_eq!(ab.get(&"y".to_string()), 7);
    assert_eq!(ab.get(&"z".to_string()), u32::MAX);
}

#[test]
fn merge_is_associative() {
    let a = [("x", 1), ("y", u32::MAX - 3)];
    let b = [("y", 2), ("z", 9)];
    let c = [("x", 4), ("y", 2), ("z", 1)];
    let mut left = table(&a);
    left.merge(&table(&b));
    left.merge(&table(&c));
    let mut bc = table(&b);
    bc.merge(&table(&c));
    let mut right = table(&a);
    right.merge(&bc);
    assert_eq!(pairs(&left), pairs(&right));
    assert_eq!(
        pairs(&left),
        vec![("x".to_string(), 5), ("y".to_string(), u32::MAX), ("z".to_string(), 10)]
    );
}
