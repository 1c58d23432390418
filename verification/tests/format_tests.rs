use bpe_tokenizer::cli::{read_argument, Action, Argument};
use bpe_tokenizer::json::tokens_to_json;
use bpe_tokenizer::merge::Token;
use bpe_tokenizer::numerals::format_commas;
use bpe_tokenizer::text::remove_carriage_returns;

#[test]
fn commas_every_three_digits() {
    assert_eq!(format_commas(0), "0");
    assert_eq!(format_commas(999), "999");
    assert_eq!(format_commas(1000), "1,000");
    assert_eq!(format_commas(123456), "123,456");
    assert_eq!(format_commas(1234567), "1,234,567");
    assert_eq!(format_commas(usize::MAX), {
        let digits = usize::MAX.to_string();
        let mut out = String::new();
        for (i, c) in digits.chars().enumerate() {
            if i > 0 && (digits.len() - i) % 3 == 0 {
                out.push(',');
            }
            out.push(c);
        }
        out
    });
}

#[test]
fn carriage_returns_are_removed() {
    assert_eq!(remove_carriage_returns(&String::from("a\r\nb\r")), "a\nb");
    assert_eq!(remove_carriage_returns(&String::from("")), "");
}

#[test]
fn tokens_as_json() {
    assert_eq!(tokens_to_json(&vec![]), "[]");
    assert_eq!(tokens_to_json(&vec![Token(3), Token(10), Token(0)]), "[3,10,0]");
    assert_eq!(tokens_to_json(&vec![Token(4096)]), "[4096]");
}

#[test]
fn flags_are_read() {
    assert_eq!(Argument::from_string(String::from("-f")), Ok(Argument::Files));
    assert_eq!(Argument::from_string(String::from("--dirs")), Ok(Argument::Dirs));
    assert_eq!(Argument::from_string(String::from("-v")), Ok(Argument::VocabSize));
    assert_eq!(Argument::from_string(String::from("--min-freq")), Ok(Argument::MinFrequency));
    assert_eq!(Argument::from_string(String::from("--low-mem")), Ok(Argument::LowMemory));
    assert_eq!(Argument::from_string(String::from("--tokenizer-path")), Ok(Argument::TokenizerPath));
    assert_eq!(Argument::from_string(String::from("--tokenization-path")), Ok(Argument::TokenizationPath));
    assert_eq!(Argument::from_string(String::from("-x")), Err(String::from("Invalid argument: -x")));
}

#[test]
fn arguments_move_the_reader_on() {
    let (state, action) = read_argument(Argument::Unset, String::from("--low-mem"));
    assert_eq!(state, Argument::Unset);
    assert!(matches!(action, Action::SetLowMemory));

    let (state, action) = read_argument(Argument::Unset, String::from("-f"));
    assert_eq!(state, Argument::Files);
    assert!(matches!(action, Action::Nothing));

    let (state, action) = read_argument(Argument::Files, String::from("a.txt"));
    assert_eq!(state, Argument::Files);
    assert!(matches!(action, Action::AddFile(ref f) if f == "a.txt"));

    let (state, action) = read_argument(Argument::Files, String::from("-v"));
    assert_eq!(state, Argument::VocabSize);
    assert!(matches!(action, Action::Nothing));

    let (state, action) = read_argument(Argument::VocabSize, String::from("+1024"));
    assert_eq!(state, Argument::Unset);
    assert!(matches!(action, Action::SetVocabSize(1024)));

    let (_, action) = read_argument(Argument::VocabSize, String::from("ten"));
    assert!(matches!(action, Action::Fail(ref m) if m == "Invalid value for --vocab-size: ten"));

    let (_, action) = read_argument(Argument::MinFrequency, String::from("1"));
    assert!(matches!(action, Action::Fail(ref m) if m == "Invalid value for --min-freq: 1, value must be >= 2"));

    let (state, action) = read_argument(Argument::MinFrequency, String::from("3"));
    assert_eq!(state, Argument::Unset);
    assert!(matches!(action, Action::SetMinFrequency(3)));

    let (state, action) = read_argument(Argument::Files, String::from("--low-mem"));
    assert_eq!(state, Argument::LowMemory);
    assert!(matches!(action, Action::Nothing));
    let (_, action) = read_argument(state, String::from("x"));
    assert!(matches!(action, Action::InvalidState));

    let (state, action) = read_argument(Argument::TokenizerPath, String::from("out.json"));
    assert_eq!(state, Argument::Unset);
    assert!(matches!(action, Action::SetTokenizerPath(ref p) if p == "out.json"));
}
