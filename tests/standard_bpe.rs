use bpe_tokenizer::{DataFormatError, StandardBPE};

fn vocab(entries: &[(&str, isize)]) -> StandardBPE {
    let mut bpe = StandardBPE::new();
    for (token, score) in entries {
        bpe.insert(token, *score);
    }
    bpe
}

fn lines(ls: &[&str]) -> Vec<String> {
    ls.iter().map(|l| l.to_string()).collect()
}

#[test]
fn longest_match_wins() {
    let bpe = vocab(&[("a", 1), ("ab", 5), ("b", 1)]);
    assert_eq!(bpe.tokenize_word("ab"), vec!["ab"]);
}

#[test]
fn longest_match_wins_over_higher_scores() {
    let bpe = vocab(&[("a", 100), ("ab", 1), ("b", 100)]);
    assert_eq!(bpe.tokenize_word("ab"), vec!["ab"]);
}

#[test]
fn equal_scores_give_one_result_every_time() {
    let bpe = vocab(&[("ab", 3), ("cd", 3)]);
    let first = bpe.tokenize_word("abcd");
    assert_eq!(first, vec!["ab", "cd"]);
    for _ in 0..5 {
        assert_eq!(bpe.tokenize_word("abcd"), first);
    }
}

#[test]
fn equal_scores_pick_the_rightmost_match() {
    let bpe = vocab(&[("ab", 3), ("bc", 3)]);
    assert_eq!(bpe.tokenize_word("abc"), vec!["<unk>", "bc"]);
}

#[test]
fn higher_score_wins_among_same_length() {
    let bpe = vocab(&[("ab", 2), ("bc", 5)]);
    assert_eq!(bpe.tokenize_word("abc"), vec!["<unk>", "bc"]);
    let bpe = vocab(&[("ab", 5), ("bc", 2)]);
    assert_eq!(bpe.tokenize_word("abc"), vec!["ab", "<unk>"]);
}

#[test]
fn segments_left_and_right_of_the_match() {
    let bpe = vocab(&[("x", 1), ("bc", 1), ("y", 1)]);
    assert_eq!(bpe.tokenize_word("xbcy"), vec!["x", "bc", "y"]);
}

#[test]
fn unmatched_word_is_one_unknown_token() {
    let bpe = StandardBPE::new();
    assert_eq!(bpe.tokenize_word("xyz"), vec!["<unk>"]);
    assert_eq!(bpe.tokenize_word(""), Vec::<String>::new());
}

#[test]
fn sentence_markers_surround_each_sentence() {
    let bpe = StandardBPE::new();
    let tokens = bpe.tokenize("Hi there.");
    assert_eq!(tokens, vec!["<s>", "<unk>", "<unk>", "</s>"]);
}

#[test]
fn words_are_lowercased_and_marked() {
    let bpe = vocab(&[("\u{2581}hi", 1), ("\u{2581}there", 1)]);
    assert_eq!(bpe.tokenize("Hi there."), vec!["<s>", "\u{2581}hi", "\u{2581}there", "</s>"]);
}

#[test]
fn two_sentences_give_two_marked_blocks() {
    let bpe = vocab(&[("\u{2581}hi", 1), ("\u{2581}bye", 1)]);
    assert_eq!(
        bpe.tokenize("Hi. Bye."),
        vec!["<s>", "\u{2581}hi", "</s>", "<s>", "\u{2581}bye", "</s>"]
    );
}

#[test]
fn tokenize_is_deterministic() {
    let bpe = vocab(&[("\u{2581}a", 1), ("b", 2), ("ab", 2), ("\u{2581}", 0)]);
    let text = "Ab ba. Abab!";
    assert_eq!(bpe.tokenize(text), bpe.tokenize(text));
}

#[test]
fn text_without_sentences_gives_nothing() {
    let bpe = StandardBPE::new();
    assert_eq!(bpe.tokenize(""), Vec::<String>::new());
    assert_eq!(bpe.tokenize("... !"), Vec::<String>::new());
}

#[test]
fn sentence_words_are_segmented_with_markers() {
    let bpe = vocab(&[("\u{2581}hi", 1)]);
    let words = vec!["hi".to_string(), "yo".to_string()];
    assert_eq!(bpe.tokenize_sentence_words(&words), vec!["<s>", "\u{2581}hi", "<unk>", "</s>"]);
    assert_eq!(bpe.tokenize_sentence_words(&Vec::new()), vec!["<s>", "</s>"]);
}

#[test]
fn sentence_with_markers_lowercases_words() {
    let bpe = vocab(&[("\u{2581}hello", 1), ("\u{2581}world", 1)]);
    assert_eq!(
        bpe.tokenize_sentence_with_markers("Hello WORLD"),
        vec!["<s>", "\u{2581}hello", "\u{2581}world", "</s>"]
    );
}

#[test]
fn load_rejects_line_with_one_field() {
    let mut bpe = StandardBPE::new();
    assert_eq!(
        bpe.load_vocab_lines(&lines(&["tokenonly"])),
        Err(DataFormatError::MissingField { line: 1 })
    );
    assert_eq!(bpe.tokenize_word("tokenonly"), vec!["<unk>"]);
}

#[test]
fn load_rejects_bad_score() {
    let mut bpe = StandardBPE::new();
    assert_eq!(
        bpe.load_vocab_lines(&lines(&["ab 3", "cd x"])),
        Err(DataFormatError::InvalidScore { line: 2 })
    );
    assert_eq!(bpe.tokenize_word("abcd"), vec!["ab", "<unk>"]);
    let mut bpe = StandardBPE::new();
    assert_eq!(
        bpe.load_vocab_lines(&lines(&["ab 99999999999999999999"])),
        Err(DataFormatError::InvalidScore { line: 1 })
    );
    let mut bpe = StandardBPE::new();
    assert_eq!(bpe.load_vocab_lines(&lines(&["ab 5x"])), Err(DataFormatError::InvalidScore { line: 1 }));
}

#[test]
fn load_rejects_empty_line() {
    let mut bpe = StandardBPE::new();
    assert_eq!(
        bpe.load_vocab_lines(&lines(&["ab 1", ""])),
        Err(DataFormatError::MissingField { line: 2 })
    );
}

#[test]
fn load_accepts_signed_scores_and_extra_fields() {
    let mut bpe = StandardBPE::new();
    assert_eq!(bpe.load_vocab_lines(&lines(&["ab -3", "bc +4 extra", "  cd\t7  "])), Ok(()));
    assert_eq!(bpe.tokenize_word("abc"), vec!["<unk>", "bc"]);
    assert_eq!(bpe.tokenize_word("cd"), vec!["cd"]);
}

#[test]
fn load_keeps_the_last_score_of_a_token() {
    let mut bpe = StandardBPE::new();
    assert_eq!(bpe.load_vocab_lines(&lines(&["ab 1", "bc 5", "ab 7"])), Ok(()));
    assert_eq!(bpe.tokenize_word("abc"), vec!["ab", "<unk>"]);
    let mut bpe = StandardBPE::new();
    assert_eq!(bpe.load_vocab_lines(&lines(&["ab 7", "bc 5", "ab 1"])), Ok(()));
    assert_eq!(bpe.tokenize_word("abc"), vec!["<unk>", "bc"]);
}

#[test]
fn insert_fields_checks_field_count_and_score() {
    let mut bpe = StandardBPE::new();
    let fields = vec!["ab".to_string()];
    assert_eq!(bpe.insert_fields(&fields, 4), Err(DataFormatError::MissingField { line: 4 }));
    let fields = vec!["ab".to_string(), "1.5".to_string()];
    assert_eq!(bpe.insert_fields(&fields, 5), Err(DataFormatError::InvalidScore { line: 5 }));
    let fields = vec!["ab".to_string(), "2".to_string()];
    assert_eq!(bpe.insert_fields(&fields, 6), Ok(()));
    assert_eq!(bpe.tokenize_word("ab"), vec!["ab"]);
}
