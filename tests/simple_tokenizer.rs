use bpe_tokenizer::SimpleTokenizer;

#[test]
fn words_split_on_whitespace() {
    assert_eq!(SimpleTokenizer::tokenize_words("  hello \t world\n "), vec!["hello", "world"]);
    assert_eq!(SimpleTokenizer::tokenize_words(""), Vec::<String>::new());
}

#[test]
fn chars_split_into_characters() {
    assert_eq!(SimpleTokenizer::tokenize_chars("héy"), vec!["h", "é", "y"]);
    assert_eq!(SimpleTokenizer::tokenize_chars(""), Vec::<String>::new());
}
