use tinylm::tokenizer::{attaches_to_previous, detokenize, tokenize};
use tinylm::training::clip;
use tinylm::vocabulary::{build_vocab, encode, index_vocab};

fn strings(items: &[&str]) -> Vec<String> {
    items.iter().map(|s| s.to_string()).collect()
}

#[test]
fn words_keep_their_apostrophes() {
    assert_eq!(tokenize("thou'lt go."), strings(&["thou'lt", "go", "."]));
    assert_eq!(tokenize("'tis"), strings(&["'tis"]));
}

#[test]
fn line_breaks_are_tokens_and_spaces_are_not() {
    assert_eq!(
        tokenize("To be,\n  or not\t\r\n\nto be"),
        strings(&["To", "be", ",", "\n", "or", "not", "\n", "\n", "to", "be"])
    );
}

#[test]
fn every_other_mark_stands_alone() {
    assert_eq!(tokenize("12,--a"), strings(&["1", "2", ",", "-", "-", "a"]));
    assert_eq!(tokenize("(a)[b]"), strings(&["(", "a", ")", "[", "b", "]"]));
}

#[test]
fn letters_of_other_scripts_make_words() {
    assert_eq!(tokenize("na\u{ef}ve caf\u{e9}"), strings(&["na\u{ef}ve", "caf\u{e9}"]));
    assert_eq!(tokenize("\u{43f}\u{440}\u{438}\u{3bb}"), strings(&["\u{43f}\u{440}\u{438}\u{3bb}"]));
    assert_eq!(tokenize("\u{4f60}\u{597d}\u{3002}"), strings(&["\u{4f60}\u{597d}", "\u{3002}"]));
}

#[test]
fn white_space_of_other_scripts_separates() {
    assert_eq!(tokenize("a\u{a0}b\u{3000}c\u{2009}d\u{85}e\u{1680}f"), strings(&["a", "b", "c", "d", "e", "f"]));
    assert_eq!(tokenize("a\u{2028}b\u{2029}c\u{202f}d\u{205f}e\u{b}f\u{c}g"), strings(&["a", "b", "c", "d", "e", "f", "g"]));
    // A zero-width space is no white space.
    assert_eq!(tokenize("a\u{200b}b"), strings(&["a", "\u{200b}", "b"]));
}

#[test]
fn no_text_has_no_tokens() {
    assert!(tokenize("").is_empty());
    assert!(tokenize(" \t ").is_empty());
}

#[test]
fn punctuation_hugs_the_token_before_it() {
    for mark in [",", ".", "!", "?", ";", ":", "'", ")", "]", "}", "-"] {
        assert!(attaches_to_previous(mark), "{mark}");
    }
    for other in ["(", "[", "{", "`", "a", "", "\n", "..", "\""] {
        assert!(!attaches_to_previous(other), "{other}");
    }
}

#[test]
fn tokens_become_readable_text() {
    let tokens = strings(&["(", "a", ")", ",", "b", "\n", "c", "`", "d", "-", "e", "{", "f", "}", "[", "g"]);
    assert_eq!(detokenize(&tokens), "(a), b\nc `d- e {f} [g");
    assert_eq!(detokenize(&strings(&["\n", "\n", "Enter", "MACBETH", "."])), "\n\nEnter MACBETH.");
    assert_eq!(detokenize(&[]), "");
}

#[test]
fn readable_text_reads_back() {
    let text = "To be, or not to be: that is the question:\nWhether 'tis nobler (in the mind) to suffer!";
    let tokens = tokenize(text);
    assert_eq!(tokenize(&detokenize(&tokens)), tokens);
    // A lone apostrophe behind a word is the exception: it joins the word.
    let lone = strings(&["a", "'"]);
    assert_eq!(tokenize(&detokenize(&lone)), strings(&["a'"]));
}

#[test]
fn tokens_hold_all_that_is_visible() {
    let text = "Thrice the brinded cat hath mew'd.\n\tThrice, and once...";
    let visible: String = text.chars().filter(|c| *c == '\n' || !c.is_whitespace()).collect();
    assert_eq!(tokenize(text).concat(), visible);
}

#[test]
fn vocabulary_keeps_the_most_frequent_tokens_in_order() {
    let tokens = strings(&["b", "a", "b", "c", "a", "b"]);
    let (vocab, ids) = build_vocab(&tokens, 3);
    assert_eq!(vocab, strings(&["<unk>", "a", "b"]));
    assert_eq!(ids.get("<unk>"), Some(&0));
    assert_eq!(ids.get("a"), Some(&1));
    assert_eq!(ids.get("b"), Some(&2));
    assert_eq!(ids.get("c"), None);
}

#[test]
fn vocabulary_breaks_ties_by_the_alphabet() {
    let tokens = strings(&["d", "c", "e"]);
    assert_eq!(build_vocab(&tokens, 2).0, strings(&["<unk>", "c"]));
    assert_eq!(build_vocab(&tokens, 3).0, strings(&["<unk>", "c", "d"]));
    // Upper case stands before lower case, and a prefix before the rest.
    let tokens = strings(&["b", "B", "ab", "a", "\n"]);
    assert_eq!(build_vocab(&tokens, 100).0, strings(&["<unk>", "\n", "B", "a", "ab", "b"]));
}

#[test]
fn smallest_vocabularies_know_nothing() {
    let tokens = strings(&["a", "b"]);
    assert_eq!(build_vocab(&tokens, 0).0, strings(&["<unk>"]));
    assert_eq!(build_vocab(&tokens, 1).0, strings(&["<unk>"]));
    assert_eq!(build_vocab(&[], 8000).0, strings(&["<unk>"]));
}

#[test]
fn a_token_spelled_like_the_unknown_gets_the_later_number() {
    let (vocab, ids) = build_vocab(&strings(&["<unk>"]), 8);
    assert_eq!(vocab, strings(&["<unk>", "<unk>"]));
    assert_eq!(ids.get("<unk>"), Some(&1));
}

#[test]
fn unknown_tokens_are_numbered_zero() {
    let (vocab, ids) = build_vocab(&tokenize("hello world hello there hello friend"), 3);
    assert_eq!(vocab, strings(&["<unk>", "friend", "hello"]));
    assert_eq!(encode(&ids, &tokenize("hello world hello friend")), vec![2, 0, 2, 1]);
}

#[test]
fn a_loaded_vocabulary_is_indexed_alike() {
    let (vocab, ids) = build_vocab(&tokenize("one two three two"), 10);
    let again = index_vocab(&vocab);
    for (i, entry) in vocab.iter().enumerate() {
        assert_eq!(ids.get(entry), Some(&i));
        assert_eq!(again.get(entry), Some(&i));
    }
    assert_eq!(again.get("four"), None);
}

#[test]
fn numbered_tokens_read_back() {
    let tokens = tokenize("the cat sat on the mat, the end");
    let (vocab, ids) = build_vocab(&tokens, 100);
    let numbers = encode(&ids, &tokens);
    let back: Vec<String> = numbers.iter().map(|&id| vocab[id].clone()).collect();
    assert_eq!(back, tokens);
}

#[test]
fn texts_are_cut_by_characters() {
    assert_eq!(clip("caf\u{e9} noir", 4), "caf\u{e9}");
    assert_eq!(clip("abc", 3), "abc");
    assert_eq!(clip("abc", 100), "abc");
    assert_eq!(clip("abc", 0), "");
}
