use hyphenator::corpus::Corpus;
use hyphenator::hyphenate::{mark, mark_word, possibilities};

#[test]
fn single_word_hyphenation() {
    let mut corpus = Corpus::from_string(".as4d8f");
    corpus.min_word_length(1);
    corpus.right_min(0);
    corpus.left_min(0);
    let hyphenator = mark_word("asdf", &corpus);
    let split = hyphenator.hyphenate();
    assert_eq!(split, "as\u{ad}d\u{ad}f");
}

#[test]
fn custom_hyphenation_mark() {
    let mut corpus = Corpus::from_string(".asd8f");
    corpus.min_word_length(1);
    corpus.right_min(0);
    corpus.left_min(0);
    let hyphenator = mark_word("asdf", &corpus);
    let split = hyphenator.hyphenate_with("<shy></shy>");
    assert_eq!(split, "asd<shy></shy>f");
}

#[test]
fn fulltext_hyphenation() {
    let mut corpus = Corpus::from_string(".as4d8f");
    corpus.min_word_length(1);
    corpus.right_min(0);
    corpus.left_min(0);
    let hyphenator = mark("asdf foo asdf", &corpus);
    let split = hyphenator.hyphenate();
    assert_eq!(split, "as\u{ad}d\u{ad}f foo as\u{ad}d\u{ad}f");
}

#[test]
fn negation_hyphenation() {
    let mut corpus = Corpus::from_string(".as4df s9d asd4f");
    corpus.min_word_length(1);
    corpus.right_min(0);
    corpus.left_min(0);
    let hyphenator = mark("asdf", &corpus);
    assert_eq!(hyphenator.hyphenate(), "asd\u{ad}f");
}

#[test]
fn exceptions() {
    let mut corpus = Corpus::from_string(".as4df s9d asd4f");
    corpus.min_word_length(1);
    corpus.right_min(0);
    corpus.left_min(0);
    corpus.add_exception("a-sdf");
    let hyphenator = mark("asdf fasdf", &corpus);
    assert_eq!(hyphenator.hyphenate(), "a\u{ad}sdf fasd\u{ad}f");
}

#[test]
fn min_left_and_rigth() {
    let mut corpus = Corpus::from_string("f4o4ob4a4r");
    corpus.right_min(2);
    corpus.left_min(2);
    let hyphenator = mark("foobar", &corpus);
    assert_eq!(hyphenator.hyphenate(), "fo\u{ad}ob\u{ad}ar");
}

#[test]
fn possibilities_are_absolute_offsets() {
    let mut corpus = Corpus::from_string(".as4d8f");
    corpus.min_word_length(1);
    corpus.right_min(0);
    corpus.left_min(0);
    assert_eq!(possibilities("asdf foo asdf", &corpus), vec![2, 3, 11, 12]);
}

#[test]
fn removing_the_mark_restores_the_text() {
    let mut corpus = Corpus::from_string(".as4d8f f2oo");
    corpus.min_word_length(1);
    corpus.right_min(0);
    corpus.left_min(0);
    let text = "asdf foo asdf";
    let split = mark(text, &corpus).hyphenate_with("@@");
    assert_eq!(split.replace("@@", ""), text);
}

#[test]
fn segments_come_one_per_step() {
    let mut corpus = Corpus::from_string(".as4d8f");
    corpus.min_word_length(1);
    corpus.right_min(0);
    corpus.left_min(0);
    let mut hyphenator = mark_word("asdf", &corpus);
    assert_eq!(hyphenator.next(), Some("as"));
    assert_eq!(hyphenator.next(), Some("d"));
    assert_eq!(hyphenator.next(), Some("f"));
    assert_eq!(hyphenator.next(), None);
    assert_eq!(hyphenator.next(), None);
}

#[test]
fn no_breaks_yield_single_segment() {
    let corpus = Corpus::from_string("");
    let hyphenator = mark("plain text", &corpus);
    assert_eq!(hyphenator.hyphenate(), "plain text");
}
