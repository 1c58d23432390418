use std::collections::HashMap;

use bpe_tokenizer::merge::{Rule, Token};
use bpe_tokenizer::tokenizer::BPETokenizer;

fn toks(v: &[usize]) -> Vec<Token> {
    v.iter().map(|&t| Token(t)).collect()
}

#[test]
fn trains_the_classic_example() {
    let text = String::from("aaabdaaabac");
    let tokenizer = BPETokenizer::from_text(&text);
    // a b c d, then aa, ab, aaab
    assert_eq!(tokenizer.num_tokens(), 7);
    let encoded = tokenizer.encode(&text);
    assert_eq!(encoded.to_vec(), toks(&[6, 3, 6, 0, 2]));
    assert_eq!(tokenizer.decode(encoded), text);
}

#[test]
fn vocab_size_limits_the_tokens() {
    let text = String::from("aaabdaaabac");
    let tokenizer = BPETokenizer::from_text_with_vocab_size(&text, 6);
    assert_eq!(tokenizer.num_tokens(), 6);
    let encoded = tokenizer.encode(&text);
    assert_eq!(encoded.to_vec(), toks(&[4, 5, 3, 4, 5, 0, 2]));
}

#[test]
fn vocab_size_below_alphabet_learns_nothing() {
    let text = String::from("abcabc");
    let tokenizer = BPETokenizer::from_text_with_vocab_size(&text, 2);
    assert_eq!(tokenizer.num_tokens(), 3);
    assert_eq!(tokenizer.encode(&text).to_vec(), toks(&[0, 1, 2, 0, 1, 2]));
}

#[test]
fn single_character_text() {
    let text = String::from("x");
    let tokenizer = BPETokenizer::from_text(&text);
    assert_eq!(tokenizer.num_tokens(), 1);
    let encoded = tokenizer.encode(&text);
    assert_eq!(encoded.to_vec(), toks(&[0]));
    assert_eq!(tokenizer.decode(encoded), "x");
}

#[test]
fn ties_go_to_the_last_pair_in_table_order() {
    // "abba": pairs (a,b), (b,b), (b,a) once each: no pair occurs twice
    let text = String::from("abba");
    assert_eq!(BPETokenizer::from_text(&text).num_tokens(), 2);
    // "ababa": (a,b) and (b,a) both occur twice; (a,b) has the larger
    // table index a + b * n = 0 + 1 * 2 = 2 against 1 + 0 * 2 = 1, so it wins
    let text = String::from("ababa");
    let tokenizer = BPETokenizer::from_text(&text);
    let encoded = tokenizer.encode(&text);
    assert_eq!(encoded.to_vec()[0], Token(2));
    assert_eq!(tokenizer.decode(encoded), text);
}

#[test]
fn round_trip_on_other_texts() {
    let text = String::from("the cat sat on the mat, the end.\nthe cat!");
    let tokenizer = BPETokenizer::from_text(&text);
    let sample = String::from("the mat sat on the cat");
    let encoded = tokenizer.encode(&sample);
    assert_eq!(tokenizer.decode(encoded), sample);
    let encoded = tokenizer.encode(&text);
    assert!(encoded.len() < text.chars().count());
    assert_eq!(tokenizer.decode(encoded), text);
}

#[test]
fn unicode_text_round_trips() {
    let text = String::from("héhé ßß héhé");
    let tokenizer = BPETokenizer::from_text(&text);
    let encoded = tokenizer.encode(&text);
    assert_eq!(tokenizer.decode(encoded), text);
}

#[test]
fn built_tokenizer_encodes_and_decodes() {
    let mut vocab = HashMap::new();
    vocab.insert('x' as u32, Token(0));
    vocab.insert('y' as u32, Token(1));
    let mut token_map = HashMap::new();
    token_map.insert(0usize, String::from("x"));
    token_map.insert(1usize, String::from("y"));
    token_map.insert(2usize, String::from("xy"));
    let rules = vec![Rule::new(Token(0), Token(1), Token(2))];
    let tokenizer = BPETokenizer::new(vocab, token_map, rules);
    assert_eq!(tokenizer.num_tokens(), 3);
    let text = String::from("xyxxy");
    let encoded = tokenizer.encode(&text);
    assert_eq!(encoded.to_vec(), toks(&[2, 0, 2]));
    assert_eq!(tokenizer.decode(encoded), text);
    let custom: Box<[Token]> = toks(&[1, 1, 2]).into_boxed_slice();
    assert_eq!(tokenizer.decode(custom), "yyxy");
}

fn token_texts(tokenizer: &BPETokenizer) -> Vec<String> {
    (0..tokenizer.num_tokens())
        .map(|k| tokenizer.decode(vec![Token(k)].into_boxed_slice()))
        .collect()
}

#[test]
fn from_text_is_training_without_a_vocab_size() {
    let text = String::from("aaabdaaabac");
    let plain = BPETokenizer::from_text(&text);
    let unlimited = BPETokenizer::from_text_with_vocab_size(&text, 0);
    assert_eq!(token_texts(&plain), token_texts(&unlimited));
    assert_eq!(plain.encode(&text), unlimited.encode(&text));
    let again = BPETokenizer::from_text(&text);
    assert_eq!(token_texts(&plain), token_texts(&again));
}

#[test]
fn single_text_vocab_size_learns_a_prefix() {
    let text = String::from("the cat sat on the mat, the cat sat on the hat.");
    let small = BPETokenizer::from_text_with_vocab_size(&text, 15);
    let large = BPETokenizer::from_text(&text);
    assert_eq!(small.num_tokens(), 15);
    assert!(large.num_tokens() > 15);
    let small_texts = token_texts(&small);
    let large_texts = token_texts(&large);
    assert_eq!(small_texts[..], large_texts[..15]);
}

#[test]
fn huge_vocab_size_on_a_short_text() {
    // the vocabulary size's square overflows, but tokens stay few
    let text = String::from("abab");
    let tokenizer = BPETokenizer::from_text_with_vocab_size(&text, usize::MAX);
    assert_eq!(tokenizer.num_tokens(), 3);
    assert_eq!(tokenizer.encode(&text).to_vec(), toks(&[2, 2]));
}

#[test]
fn checked_training_matches_training() {
    let text = String::from("aaabdaaabac");
    let checked = BPETokenizer::try_from_text_with_vocab_size(&text, 0).unwrap();
    let plain = BPETokenizer::from_text(&text);
    assert_eq!(token_texts(&checked), token_texts(&plain));
    let limited = BPETokenizer::try_from_text_with_vocab_size(&text, 6).unwrap();
    assert_eq!(limited.num_tokens(), 6);
}
