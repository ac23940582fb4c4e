use hyphenator::trie::{PatternError, Trie};

#[test]
fn single_creation() {
    let mut trie: Trie = Trie::new();
    trie.insert(".a1bc3d4").unwrap();
    let val = trie.fetch(&".abcd.".chars().collect::<Vec<_>>());
    assert_eq!(val, vec![0, 0, 1, 0, 3, 4]);
}

#[test]
fn create_same_prefix() {
    let mut trie: Trie = Trie::new();
    trie.insert(".ci2").unwrap();
    trie.insert(".cit5r").unwrap();
    let val = trie.fetch(&".citr".chars().collect::<Vec<_>>());
    assert_eq!(val, vec![0, 0, 0, 2, 5]);

    let val = trie.fetch(&".cia".chars().collect::<Vec<_>>());
    assert_eq!(val, vec![0, 0, 0, 2]);
}

#[test]
fn priority_overwrite() {
    let mut trie: Trie = Trie::new();
    trie.insert(".a1bc").unwrap();
    trie.insert(".ab7cde").unwrap();
    trie.insert("e3f").unwrap();
    let val = trie.fetch(&".abc".chars().collect::<Vec<_>>());
    assert_eq!(val, vec![0, 0, 1, 0]);

    let val = trie.fetch(&"abc".chars().collect::<Vec<_>>());
    assert_eq!(val, vec![0, 0, 0]);

    let val = trie.fetch(&".abcde".chars().collect::<Vec<_>>());
    assert_eq!(val, vec![0, 0, 1, 7, 0, 0]);

    let val = trie.fetch(&".eef".chars().collect::<Vec<_>>());
    assert_eq!(val, vec![0, 0, 0, 3]);
}

#[test]
fn simple() {
    let mut trie: Trie = Trie::new();
    trie.insert(".a1bc").unwrap();
    trie.insert(".ab7cde").unwrap();
    trie.insert("e3f").unwrap();
    let val = trie.fetch(&".abc".chars().collect::<Vec<_>>());
    assert_eq!(val, vec![0, 0, 1, 0]);

    let val = trie.fetch(&"abc".chars().collect::<Vec<_>>());
    assert_eq!(val, vec![0, 0, 0]);

    let val = trie.fetch(&".abcde".chars().collect::<Vec<_>>());
    assert_eq!(val, vec![0, 0, 1, 7, 0, 0]);

    let val = trie.fetch(&".eef".chars().collect::<Vec<_>>());
    assert_eq!(val, vec![0, 0, 0, 3]);
}

#[test]
fn empty_pattern_rejected() {
    let mut trie: Trie = Trie::new();
    assert_eq!(trie.insert(""), Err(PatternError::Empty));
    assert_eq!(trie.count(), 0);
}

#[test]
fn digit_led_pattern_rejected() {
    let mut trie: Trie = Trie::new();
    assert_eq!(trie.insert("1ab"), Err(PatternError::LeadingDigit));
    assert_eq!(trie.count(), 0);
}

#[test]
fn digitless_pattern_stays_zero() {
    let mut trie: Trie = Trie::new();
    trie.insert(".asdf").unwrap();
    let val = trie.fetch(&".asdf.".chars().collect::<Vec<_>>());
    assert_eq!(val, vec![0, 0, 0, 0, 0, 0]);
}

#[test]
fn overlap_takes_elementwise_max() {
    let mut trie: Trie = Trie::new();
    trie.insert("ab3c").unwrap();
    trie.insert("b5c").unwrap();
    let val = trie.fetch(&"abc".chars().collect::<Vec<_>>());
    assert_eq!(val, vec![0, 0, 5]);

    let mut other: Trie = Trie::new();
    other.insert("b5c").unwrap();
    other.insert("ab3c").unwrap();
    let val = other.fetch(&"abc".chars().collect::<Vec<_>>());
    assert_eq!(val, vec![0, 0, 5]);
}

#[test]
fn reinsert_same_letters_replaces() {
    let mut trie: Trie = Trie::new();
    trie.insert("a2b").unwrap();
    trie.insert("a4b").unwrap();
    let val = trie.fetch(&"ab".chars().collect::<Vec<_>>());
    assert_eq!(val, vec![0, 4]);
    assert_eq!(trie.count(), 2);
}
