use bpe_tokenizer::corpus::{BPETokenizer, TrainingError};
use bpe_tokenizer::merge::Token;

fn toks(v: &[usize]) -> Vec<Token> {
    v.iter().map(|&t| Token(t)).collect()
}

fn corpus(texts: &[&str]) -> Vec<String> {
    texts.iter().map(|t| t.to_string()).collect()
}

#[test]
fn trains_on_one_text_like_the_single_text_tokenizer() {
    let texts = corpus(&["aaabdaaabac"]);
    let (tokenizer, encoded) = BPETokenizer::from_corpus(&texts, 0, 2, false);
    assert_eq!(tokenizer.vocab_len(), 7);
    assert_eq!(tokenizer.num_chars(), 4);
    assert_eq!(encoded.len(), 1);
    assert_eq!(encoded.get(0).to_vec(), toks(&[6, 3, 6, 0, 2]));
    let json = tokenizer.to_json();
    assert!(json.starts_with("{\"vocab\":[\"a\",\"b\",\"c\",\"d\",\"aa\",\"ab\",\"aaab\"],\"rules\":[[0,0,4],[0,1,5],[4,5,6]],\"encoding_table\":{"));
    assert!(json.ends_with("}}"));
    for entry in ["\"a\":0", "\"b\":1", "\"c\":2", "\"d\":3"] {
        assert!(json.contains(entry));
    }
    assert_eq!(encoded.to_json(), "[[6,3,6,0,2]]");
}

#[test]
fn encoded_corpus_decodes_to_the_corpus() {
    let texts = corpus(&["hello world", "hello there", "", "world of words"]);
    let (tokenizer, encoded) = BPETokenizer::from_corpus(&texts, 0, 2, false);
    assert_eq!(encoded.len(), texts.len());
    for (i, text) in texts.iter().enumerate() {
        let tokens = encoded.get(i).to_vec();
        let again = tokenizer.encode(text);
        assert_eq!(again.to_vec(), tokens);
        assert_eq!(tokenizer.decode(again), *text);
    }
}

#[test]
fn low_memory_mode_round_trips() {
    let texts = corpus(&["aaabdaaabac"]);
    let (tokenizer, encoded) = BPETokenizer::from_corpus(&texts, 0, 2, true);
    // either tie-break merges three pairs
    assert_eq!(tokenizer.vocab_len(), 7);
    let tokens = encoded.get(0).to_vec();
    assert_eq!(tokens.len(), 5);
    let again = tokenizer.encode(&texts[0]);
    assert_eq!(again.to_vec(), tokens);
    assert_eq!(tokenizer.decode(again), texts[0]);
}

#[test]
fn vocab_size_stops_training() {
    let texts = corpus(&["aaabdaaabac"]);
    let (tokenizer, encoded) = BPETokenizer::from_corpus(&texts, 5, 2, false);
    assert_eq!(tokenizer.vocab_len(), 5);
    assert_eq!(encoded.get(0).to_vec(), toks(&[4, 0, 1, 3, 4, 0, 1, 0, 2]));
}

#[test]
fn higher_min_frequency_merges_less() {
    let texts = corpus(&["aaabdaaabac"]);
    let (tokenizer, encoded) = BPETokenizer::from_corpus(&texts, 0, 3, false);
    assert_eq!(tokenizer.vocab_len(), 5);
    assert_eq!(encoded.get(0).to_vec(), toks(&[4, 0, 1, 3, 4, 0, 1, 0, 2]));
}

#[test]
fn pairs_are_counted_over_all_texts() {
    let texts = corpus(&["ab", "ab", "b"]);
    let (tokenizer, encoded) = BPETokenizer::from_corpus(&texts, 0, 2, false);
    assert_eq!(tokenizer.vocab_len(), 3);
    assert_eq!(encoded.get(0).to_vec(), toks(&[2]));
    assert_eq!(encoded.get(1).to_vec(), toks(&[2]));
    assert_eq!(encoded.get(2).to_vec(), toks(&[1]));
    assert_eq!(encoded.to_json(), "[[2],[2],[1]]");
}

#[test]
fn empty_corpus_is_refused() {
    let texts = corpus(&["", ""]);
    assert!(matches!(BPETokenizer::try_from_corpus(&texts, 0, 2, false), Err(TrainingError::EmptyCorpus)));
    let none: Vec<String> = Vec::new();
    assert!(matches!(BPETokenizer::try_from_corpus(&none, 0, 2, true), Err(TrainingError::EmptyCorpus)));
}

#[test]
fn vocab_size_below_alphabet_is_refused() {
    let texts = corpus(&["abc"]);
    match BPETokenizer::try_from_corpus(&texts, 2, 2, false) {
        Err(TrainingError::VocabSizeBelowAlphabet { vocab_size, alphabet }) => {
            assert_eq!(vocab_size, 2);
            assert_eq!(alphabet, 3);
        }
        _ => panic!("expected a vocabulary size error"),
    }
    assert!(BPETokenizer::try_from_corpus(&texts, 3, 2, false).is_ok());
}

#[test]
fn zero_min_frequency_is_refused() {
    let texts = corpus(&["abc"]);
    assert!(matches!(BPETokenizer::try_from_corpus(&texts, 0, 0, false), Err(TrainingError::ZeroMinFrequency)));
}

#[test]
fn low_memory_run_stops_without_pairs() {
    // after merging "ab" no text has two tokens left
    let texts = corpus(&["ab", "ab"]);
    let (low, low_encoded) = BPETokenizer::try_from_corpus(&texts, 0, 2, true).unwrap();
    assert_eq!(low.vocab_len(), 3);
    assert_eq!(low_encoded.to_json(), "[[2],[2]]");
    let (tokenizer, encoded) = BPETokenizer::try_from_corpus(&texts, 0, 2, false).unwrap();
    assert_eq!(tokenizer.vocab_len(), 3);
    assert_eq!(encoded.to_json(), "[[2],[2]]");
}

#[test]
fn low_memory_one_character_corpus() {
    let texts = corpus(&["a"]);
    let (low, low_encoded) = BPETokenizer::from_corpus(&texts, 0, 2, true);
    let (tokenizer, encoded) = BPETokenizer::from_corpus(&texts, 0, 2, false);
    assert_eq!(low.to_json(), "{\"vocab\":[\"a\"],\"rules\":[],\"encoding_table\":{\"a\":0}}");
    assert_eq!(low.to_json(), tokenizer.to_json());
    assert_eq!(low_encoded.to_json(), "[[0]]");
    assert_eq!(encoded.to_json(), "[[0]]");
}

#[test]
fn low_memory_agrees_when_maxima_are_unique() {
    // ab (4 times), then the new token twice in a row (2 times), then no pair twice
    let texts = corpus(&["abababcab"]);
    let (low, low_encoded) = BPETokenizer::from_corpus(&texts, 0, 2, true);
    let (tokenizer, encoded) = BPETokenizer::from_corpus(&texts, 0, 2, false);
    assert_eq!(tokenizer.vocab_len(), 5);
    assert_eq!(encoded.get(0).to_vec(), toks(&[4, 3, 2, 3]));
    assert_eq!(low.vocab_len(), tokenizer.vocab_len());
    assert_eq!(low_encoded.to_json(), encoded.to_json());
    assert_eq!(low.to_json(), tokenizer.to_json());
}

#[test]
fn training_twice_gives_the_same_tokenizer() {
    let texts = corpus(&["hello world", "hello there", "world of words"]);
    let (first, first_encoded) = BPETokenizer::from_corpus(&texts, 0, 2, false);
    let (second, second_encoded) = BPETokenizer::from_corpus(&texts, 0, 2, false);
    assert_eq!(first.to_json(), second.to_json());
    assert_eq!(first_encoded.to_json(), second_encoded.to_json());
}

fn vocab_and_rules(json: &str) -> (String, String) {
    let start = json.find("[").unwrap();
    let mid = json.find("],\"rules\":[").unwrap();
    let end = json.find("],\"encoding_table\"").unwrap();
    (json[start + 1..mid].to_string(), json[mid + 11..end].to_string())
}

#[test]
fn smaller_vocab_size_learns_a_prefix() {
    let texts = corpus(&["aaabdaaabac", "abracadabra"]);
    let (small, _) = BPETokenizer::from_corpus(&texts, 7, 2, false);
    let (large, _) = BPETokenizer::from_corpus(&texts, 0, 2, false);
    assert_eq!(small.vocab_len(), 7);
    assert!(large.vocab_len() > 7);
    let (small_vocab, small_rules) = vocab_and_rules(&small.to_json());
    let (large_vocab, large_rules) = vocab_and_rules(&large.to_json());
    assert!(large_vocab.starts_with(&small_vocab));
    assert!(large_rules.starts_with(&small_rules));
}

#[test]
fn higher_min_frequency_learns_a_prefix() {
    let texts = corpus(&["aaabdaaabac", "abracadabra"]);
    let (high, _) = BPETokenizer::from_corpus(&texts, 0, 4, false);
    let (low, _) = BPETokenizer::from_corpus(&texts, 0, 2, false);
    assert!(high.vocab_len() < low.vocab_len());
    let (high_vocab, high_rules) = vocab_and_rules(&high.to_json());
    let (low_vocab, low_rules) = vocab_and_rules(&low.to_json());
    assert!(low_vocab.starts_with(&high_vocab));
    assert!(low_rules.starts_with(&high_rules));
}

#[test]
fn large_vocab_size_is_refused_only_when_its_square_overflows() {
    let texts = corpus(&["abab"]);
    assert!(matches!(BPETokenizer::try_from_corpus(&texts, usize::MAX, 2, false), Err(TrainingError::TooLarge)));
    assert!(BPETokenizer::try_from_corpus(&texts, usize::MAX, 2, true).is_ok());
    let (tokenizer, encoded) = BPETokenizer::try_from_corpus(&texts, 3, 2, false).unwrap();
    assert_eq!(tokenizer.vocab_len(), 3);
    assert_eq!(encoded.to_json(), "[[2,2]]");
}

#[test]
fn json_escapes_characters() {
    let texts = corpus(&["a\n\"é"]);
    let (tokenizer, _) = BPETokenizer::from_corpus(&texts, 0, 2, false);
    let json = tokenizer.to_json();
    assert!(json.starts_with("{\"vocab\":[\"\\n\",\"\\\"\",\"a\",\"é\"],\"rules\":[],\"encoding_table\":{"));
    assert!(json.contains("\"é\":3"));
    assert!(json.contains("\"\\n\":0"));
    assert!(json.contains("\"\\\"\":1"));
}

#[test]
fn json_of_an_apostrophe_corpus() {
    let texts = corpus(&["'"]);
    let (tokenizer, _) = BPETokenizer::from_corpus(&texts, 0, 2, false);
    assert_eq!(tokenizer.to_json(), "{\"vocab\":[\"'\"],\"rules\":[],\"encoding_table\":{\"'\":0}}");
}

#[test]
fn json_escapes_control_characters() {
    let texts = corpus(&["\u{1}\t\\\u{1f}"]);
    let (tokenizer, _) = BPETokenizer::from_corpus(&texts, 0, 2, false);
    let json = tokenizer.to_json();
    assert!(json.starts_with("{\"vocab\":[\"\\u0001\",\"\\t\",\"\\u001f\",\"\\\\\"],\"rules\":[]"));
}

#[test]
fn encode_with_rules_in_order() {
    let texts = corpus(&["abcabc", "abcab"]);
    let (tokenizer, encoded) = BPETokenizer::from_corpus(&texts, 0, 2, false);
    for (i, text) in texts.iter().enumerate() {
        assert_eq!(tokenizer.encode(text).to_vec(), encoded.get(i).to_vec());
    }
    assert_eq!(encoded.get(1).len(), 2);
}
