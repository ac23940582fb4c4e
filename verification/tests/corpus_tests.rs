use hyphenator::corpus::Corpus;

#[test]
fn corpus_creation_from_string() {
    let corpus = Corpus::from_string(".asdf e3f .ad5g");
    assert_eq!(corpus.get_pattern_count(), 3);
}

#[test]
fn concrete_breaks_with_margins_off() {
    let mut corpus = Corpus::from_string(".as4d8f");
    corpus.min_word_length(0);
    corpus.left_min(0);
    corpus.right_min(1);
    assert_eq!(corpus.get_hyphenation_indices("asdf"), vec![2, 3]);
}

#[test]
fn odd_weight_suppresses_break() {
    let mut corpus = Corpus::from_string(".as4df s9d asd4f");
    corpus.min_word_length(1);
    corpus.left_min(0);
    corpus.right_min(0);
    assert_eq!(corpus.get_hyphenation_indices("asdf"), vec![3]);
}

#[test]
fn exception_overrides_patterns() {
    let mut corpus = Corpus::from_string(".as4d8f");
    corpus.min_word_length(1);
    corpus.left_min(0);
    corpus.right_min(0);
    corpus.add_exception("a-sdf");
    assert_eq!(corpus.get_hyphenation_indices("asdf"), vec![1]);
}

#[test]
fn short_word_yields_nothing() {
    let corpus = Corpus::from_string("a2b2c2d2e2f2g2h");
    // below the default minimum word length of 5
    assert_eq!(corpus.get_hyphenation_indices("abcd"), Vec::<usize>::new());
    // length does not clear leftMin + rightMin
    let mut tight = Corpus::from_string("a2b2c2d2e2f2g2h");
    tight.min_word_length(1);
    tight.left_min(2);
    tight.right_min(2);
    assert_eq!(tight.get_hyphenation_indices("abcd"), Vec::<usize>::new());
}

#[test]
fn exception_count_counts_distinct_words() {
    let mut corpus = Corpus::from_string("");
    assert_eq!(corpus.get_exception_count(), 0);
    corpus.add_exception("a-sdf");
    corpus.add_exception("qu-ux");
    assert_eq!(corpus.get_exception_count(), 2);
    corpus.add_exception("as-df");
    assert_eq!(corpus.get_exception_count(), 2);
    assert_eq!(corpus.get_pattern_count(), 0);
}

#[test]
fn later_exception_replaces_earlier() {
    let mut corpus = Corpus::from_string("");
    corpus.min_word_length(1);
    corpus.left_min(0);
    corpus.right_min(0);
    corpus.add_exception("a-sdf");
    corpus.add_exception("asd-f");
    assert_eq!(corpus.get_hyphenation_indices("asdf"), vec![3]);
}

#[test]
fn invalid_tokens_are_skipped() {
    let corpus = Corpus::from_string(".asdf 1bad e3f");
    assert_eq!(corpus.get_pattern_count(), 2);
}
