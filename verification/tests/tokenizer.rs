use transformer_gpu::char_tokenizer::CharTokenizer;
use transformer_gpu::tokenizer::{train_tokenizer, Tokenizer, TokenizerKind, UnknownTokenizerKind};

#[test]
fn kind_tags_round_trip() {
    assert_eq!(TokenizerKind::Char.as_u64(), 2);
    assert_eq!(TokenizerKind::CharBpe.as_u64(), 3);
    for kind in [TokenizerKind::Char, TokenizerKind::CharBpe] {
        assert_eq!(TokenizerKind::from_u64(kind.as_u64()), Ok(kind));
    }
}

#[test]
fn unknown_kind_tag_is_rejected() {
    assert_eq!(TokenizerKind::from_u64(0), Err(UnknownTokenizerKind { tag: 0 }));
    assert_eq!(TokenizerKind::from_u64(1), Err(UnknownTokenizerKind { tag: 1 }));
    assert_eq!(TokenizerKind::from_u64(4), Err(UnknownTokenizerKind { tag: 4 }));
}

#[test]
fn char_vocab_is_unk_then_sorted_distinct_chars() {
    let t = CharTokenizer::train("hello");
    assert_eq!(t.vocab_size(), 5);
    assert_eq!(t.encode_long("ehlo"), vec![1, 2, 3, 4]);
    assert_eq!(t.decode(&[1, 2, 3, 4]), "ehlo");
}

#[test]
fn char_tokenizer_ids_and_kind() {
    let t = CharTokenizer::train("abc");
    assert_eq!(t.pad_id(), 0);
    assert_eq!(t.eos_id(), usize::MAX);
    assert_eq!(t.kind(), TokenizerKind::Char);
}

#[test]
fn unknown_chars_encode_as_unk_and_vanish_on_decode() {
    let t = CharTokenizer::train("abc");
    let ids = t.encode_prompt("axbz");
    assert_eq!(ids, vec![1, 0, 2, 0]);
    assert_eq!(t.decode(&ids), "ab");
}

#[test]
fn decode_of_encode_gives_text_back() {
    let text = "To be, or not to be: that is the question. 日本語も";
    let t = CharTokenizer::train(text);
    let ids = t.encode_long(text);
    assert_eq!(ids.len(), text.chars().count());
    assert_eq!(t.decode(&ids), text);
}

#[test]
fn decode_skips_ids_outside_the_vocabulary() {
    let t = CharTokenizer::train("ab");
    assert_eq!(t.decode(&[2, 99, 1, usize::MAX]), "ba");
}

#[test]
fn empty_tokenizer_has_no_vocabulary() {
    let t = CharTokenizer::empty();
    assert_eq!(t.vocab_size(), 0);
    assert_eq!(t.encode_long("ab"), vec![0, 0]);
    assert_eq!(t.decode(&[0, 1]), "");
}

#[test]
fn train_tokenizer_by_kind() {
    let t = train_tokenizer(TokenizerKind::Char, "banana", 100).expect("char tokenizer");
    assert_eq!(t.vocab_size(), 4);
    assert_eq!(t.decode(&t.encode_long("banana")), "banana");
    assert!(train_tokenizer(TokenizerKind::CharBpe, "banana", 100).is_none());
}
