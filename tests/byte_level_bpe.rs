use bpe_tokenizer::ByteLevelBPE;

fn id_of(bpe: &ByteLevelBPE, token: &[u8]) -> Option<u32> {
    bpe.vocab().into_iter().find(|(t, _)| t.as_slice() == token).map(|(_, id)| id)
}

#[test]
fn new_holds_only_the_unknown_token() {
    let bpe = ByteLevelBPE::new();
    assert_eq!(bpe.vocab(), vec![(b"<unk>".to_vec(), 0)]);
}

#[test]
fn encode_of_empty_text_is_empty() {
    let mut bpe = ByteLevelBPE::new();
    assert_eq!(bpe.encode(""), Vec::<u32>::new());
    bpe.train("abab", 10);
    assert_eq!(bpe.encode(""), Vec::<u32>::new());
}

#[test]
fn train_merges_most_frequent_pairs() {
    let mut bpe = ByteLevelBPE::new();
    bpe.train("abab", 10);
    assert_eq!(
        bpe.vocab(),
        vec![
            (b"<unk>".to_vec(), 0),
            (b"a".to_vec(), 1),
            (b"b".to_vec(), 2),
            (b"ab".to_vec(), 3),
            (b"abab".to_vec(), 4),
        ]
    );
    assert_eq!(bpe.encode("abab"), vec![4]);
    assert_eq!(bpe.encode("ab"), vec![3]);
    assert_eq!(bpe.encode("ba"), vec![2, 1]);
    assert_eq!(bpe.encode("abba"), vec![3, 2, 1]);
}

#[test]
fn train_registers_bytes_in_order_of_first_occurrence() {
    let mut bpe = ByteLevelBPE::new();
    bpe.train("ba", 3);
    assert_eq!(id_of(&bpe, b"b"), Some(1));
    assert_eq!(id_of(&bpe, b"a"), Some(2));
    assert_eq!(bpe.vocab().len(), 3);
}

#[test]
fn train_breaks_ties_by_first_occurrence() {
    let mut bpe = ByteLevelBPE::new();
    bpe.train("abcd", 6);
    assert_eq!(bpe.vocab().len(), 6);
    assert_eq!(id_of(&bpe, b"ab"), Some(5));
    assert_eq!(bpe.encode("abcd"), vec![5, 3, 4]);
}

#[test]
fn train_stops_at_target_size() {
    let mut bpe = ByteLevelBPE::new();
    bpe.train("abcd", 5);
    assert_eq!(bpe.vocab().len(), 5);
    assert_eq!(bpe.encode("abcd"), vec![1, 2, 3, 4]);
}

#[test]
fn train_with_small_target_keeps_new_bytes() {
    let mut bpe = ByteLevelBPE::new();
    bpe.train("abc", 1);
    assert_eq!(bpe.vocab().len(), 4);
}

#[test]
fn train_on_empty_text_changes_nothing() {
    let mut bpe = ByteLevelBPE::new();
    bpe.train("", 100);
    assert_eq!(bpe.vocab(), vec![(b"<unk>".to_vec(), 0)]);
}

#[test]
fn vocabulary_grows_with_repeated_training() {
    let mut bpe = ByteLevelBPE::new();
    bpe.train("hello world", 10);
    let first = bpe.vocab();
    assert_eq!(first.len(), 10);
    bpe.train("hello world", 14);
    let second = bpe.vocab();
    assert_eq!(second.len(), 14);
    assert!(second.len() >= first.len());
    assert_eq!(&second[..first.len()], &first[..]);
}

#[test]
fn unseen_bytes_encode_to_unknown_id() {
    let mut bpe = ByteLevelBPE::new();
    bpe.train("abab", 10);
    assert_eq!(bpe.encode("c"), vec![0]);
    assert_eq!(bpe.encode("abc"), vec![3, 0]);
}

#[test]
fn decode_of_unmapped_id_is_unknown_token() {
    let mut bpe = ByteLevelBPE::new();
    bpe.train("abab", 10);
    assert_eq!(bpe.decode(&[99]), "<unk>");
    assert_eq!(bpe.decode(&[0]), "<unk>");
    assert_eq!(bpe.decode(&[3, 99, 2]), "ab<unk>b");
    assert_eq!(bpe.decode_to_bytes(&[4, 1]), b"ababa".to_vec());
}

#[test]
fn decode_replaces_invalid_utf8() {
    let mut bpe = ByteLevelBPE::new();
    bpe.train("é", 10);
    assert_eq!(bpe.encode("é"), vec![3]);
    assert_eq!(bpe.decode(&[3]), "é");
    assert_eq!(bpe.decode(&[1]), "\u{FFFD}");
}

#[test]
fn round_trip_after_training() {
    let mut bpe = ByteLevelBPE::new();
    let text = "the cat sat on the mat, then the cat ran";
    bpe.train(text, 40);
    let ids = bpe.encode(text);
    assert!(ids.len() <= text.len());
    let decoded = bpe.decode(&ids);
    assert_eq!(decoded, text);
    assert_eq!(bpe.encode(&decoded), ids);
}

#[test]
fn round_trip_with_unknown_bytes_is_stable_after_first_pass() {
    let mut bpe = ByteLevelBPE::new();
    bpe.train("<unk> abc", 20);
    let ids = bpe.encode("abz");
    let once = bpe.decode(&ids);
    let ids2 = bpe.encode(&once);
    assert_eq!(bpe.encode(&bpe.decode(&ids2)), ids2);
}
