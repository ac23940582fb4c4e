use hyphenator::hyphen::Hyphen;

#[test]
fn hyphen_creation_from_string() {
    let hyphen = Hyphen::from_string(".asdf e3f .ad5g");
    assert_eq!(hyphen.get_pattern_count(), 3);
}

#[test]
fn single_hyphenate_word() {
    let hyphen = Hyphen::from_string(".as4df");
    assert_eq!(hyphen.hyphenate_word("asdf").parts, vec!["as", "df"]);
}

#[test]
fn double_hyphenate_word() {
    let hyphen = Hyphen::from_string(".as4df sd6f");
    assert_eq!(hyphen.hyphenate_word("asdf").parts, vec!["as", "d", "f"]);
}

#[test]
fn hyphenation_negation() {
    let hyphen = Hyphen::from_string(".as4df s9d asd4f");
    assert_eq!(hyphen.hyphenate_word("asdf").parts, vec!["asd", "f"]);
}

#[test]
fn string_conversion() {
    let hyphen = Hyphen::from_string(".as4df sd6f");
    let word: String = hyphen.hyphenate_word("asdf").into();
    assert_eq!(word, "as-d-f");
}

#[test]
fn parts_concatenate_to_word() {
    let hyphen = Hyphen::from_string(".as4df sd6f e2f");
    let parts = hyphen.hyphenate_word("asdfef").parts;
    assert_eq!(parts.concat(), "asdfef");
}
