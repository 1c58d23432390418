//! The command line: its flags, and how each argument moves the reading of
//! the command line on.

use vstd::prelude::*;
use crate::text::{chars_of, concat_strings};
use crate::json::surround;

verus! {

/// What the previous argument asked the next one to be.
#[derive(Clone, Copy, Debug, PartialEq, Eq, Structural)]
pub enum Argument {
    Unset,
    Files,
    Dirs,
    VocabSize,
    MinFrequency,
    LowMemory,
    TokenizerPath,
    TokenizationPath,
}

/// The flag that `s` names, if any.
pub open spec fn argument_named(s: Seq<char>) -> Option<Argument> {
    if s == "-f"@ || s == "--files"@ {
        Some(Argument::Files)
    } else if s == "-d"@ || s == "--dirs"@ {
        Some(Argument::Dirs)
    } else if s == "-v"@ || s == "--vocab-size"@ {
        Some(Argument::VocabSize)
    } else if s == "--min-freq"@ {
        Some(Argument::MinFrequency)
    } else if s == "--low-mem"@ {
        Some(Argument::LowMemory)
    } else if s == "--tokenizer-path"@ {
        Some(Argument::TokenizerPath)
    } else if s == "--tokenization-path"@ {
        Some(Argument::TokenizationPath)
    } else {
        None
    }
}

/// Law: the flags of the usage text name their arguments, and nothing else
/// names one: `-f` or `--files`, `-d` or `--dirs`, `-v` or `--vocab-size`,
/// `--min-freq`, `--low-mem`, `--tokenizer-path` and `--tokenization-path`.
pub proof fn lemma_documented_flags(s: Seq<char>)
    ensures
        (s == seq!['-', 'f'] || s == seq!['-', '-', 'f', 'i', 'l', 'e', 's']) <==> argument_named(s) == Some(Argument::Files),
        (s == seq!['-', 'd'] || s == seq!['-', '-', 'd', 'i', 'r', 's']) <==> argument_named(s) == Some(Argument::Dirs),
        (s == seq!['-', 'v'] || s == seq!['-', '-', 'v', 'o', 'c', 'a', 'b', '-', 's', 'i', 'z', 'e']) <==> argument_named(s) == Some(Argument::VocabSize),
        (s == seq!['-', '-', 'm', 'i', 'n', '-', 'f', 'r', 'e', 'q']) <==> argument_named(s) == Some(Argument::MinFrequency),
        (s == seq!['-', '-', 'l', 'o', 'w', '-', 'm', 'e', 'm']) <==> argument_named(s) == Some(Argument::LowMemory),
        (s == seq!['-', '-', 't', 'o', 'k', 'e', 'n', 'i', 'z', 'e', 'r', '-', 'p', 'a', 't', 'h']) <==> argument_named(s) == Some(Argument::TokenizerPath),
        (s == seq!['-', '-', 't', 'o', 'k', 'e', 'n', 'i', 'z', 'a', 't', 'i', 'o', 'n', '-', 'p', 'a', 't', 'h']) <==> argument_named(s) == Some(Argument::TokenizationPath),
        argument_named(s) != Some(Argument::Unset),
{
    reveal_strlit("-f");
    assert("-f"@ =~= seq!['-', 'f']);
    reveal_strlit("--files");
    assert("--files"@ =~= seq!['-', '-', 'f', 'i', 'l', 'e', 's']);
    reveal_strlit("-d");
    assert("-d"@ =~= seq!['-', 'd']);
    reveal_strlit("--dirs");
    assert("--dirs"@ =~= seq!['-', '-', 'd', 'i', 'r', 's']);
    reveal_strlit("-v");
    assert("-v"@ =~= seq!['-', 'v']);
    reveal_strlit("--vocab-size");
    assert("--vocab-size"@ =~= seq!['-', '-', 'v', 'o', 'c', 'a', 'b', '-', 's', 'i', 'z', 'e']);
    reveal_strlit("--min-freq");
    assert("--min-freq"@ =~= seq!['-', '-', 'm', 'i', 'n', '-', 'f', 'r', 'e', 'q']);
    reveal_strlit("--low-mem");
    assert("--low-mem"@ =~= seq!['-', '-', 'l', 'o', 'w', '-', 'm', 'e', 'm']);
    reveal_strlit("--tokenizer-path");
    assert("--tokenizer-path"@ =~= seq!['-', '-', 't', 'o', 'k', 'e', 'n', 'i', 'z', 'e', 'r', '-', 'p', 'a', 't', 'h']);
    reveal_strlit("--tokenization-path");
    assert("--tokenization-path"@ =~= seq!['-', '-', 't', 'o', 'k', 'e', 'n', 'i', 'z', 'a', 't', 'i', 'o', 'n', '-', 'p', 'a', 't', 'h']);
}

/// `s` equals the literal `lit`.
fn is_literal(s: &String, lit: &str) -> (res: bool)
    ensures
        res == (s@ == lit@),
{
    s.eq(&lit.to_owned())
}

impl Argument {
    /// The flag that `string` names; an error message when it names none.
    pub fn from_string(string: String) -> (res: Result<Argument, String>)
        ensures
            match argument_named(string@) {
                Some(a) => res == Ok::<Argument, String>(a),
                None => res matches Err(msg) && msg@ == "Invalid argument: "@ + string@,
            },
            string@ == seq!['-', 'f'] || string@ == seq!['-', '-', 'f', 'i', 'l', 'e', 's'] ==> res == Ok::<Argument, String>(Argument::Files),
            string@ == seq!['-', 'd'] || string@ == seq!['-', '-', 'd', 'i', 'r', 's'] ==> res == Ok::<Argument, String>(Argument::Dirs),
            string@ == seq!['-', 'v'] || string@ == seq!['-', '-', 'v', 'o', 'c', 'a', 'b', '-', 's', 'i', 'z', 'e'] ==> res == Ok::<Argument, String>(Argument::VocabSize),
            string@ == seq!['-', '-', 'm', 'i', 'n', '-', 'f', 'r', 'e', 'q'] ==> res == Ok::<Argument, String>(Argument::MinFrequency),
            string@ == seq!['-', '-', 'l', 'o', 'w', '-', 'm', 'e', 'm'] ==> res == Ok::<Argument, String>(Argument::LowMemory),
            string@ == seq!['-', '-', 't', 'o', 'k', 'e', 'n', 'i', 'z', 'e', 'r', '-', 'p', 'a', 't', 'h'] ==> res == Ok::<Argument, String>(Argument::TokenizerPath),
            string@ == seq!['-', '-', 't', 'o', 'k', 'e', 'n', 'i', 'z', 'a', 't', 'i', 'o', 'n', '-', 'p', 'a', 't', 'h'] ==> res == Ok::<Argument, String>(Argument::TokenizationPath),
    {
        proof {
            lemma_documented_flags(string@);
        }
        if is_literal(&string, "-f") || is_literal(&string, "--files") {
            Ok(Argument::Files)
        } else if is_literal(&string, "-d") || is_literal(&string, "--dirs") {
            Ok(Argument::Dirs)
        } else if is_literal(&string, "-v") || is_literal(&string, "--vocab-size") {
            Ok(Argument::VocabSize)
        } else if is_literal(&string, "--min-freq") {
            Ok(Argument::MinFrequency)
        } else if is_literal(&string, "--low-mem") {
            Ok(Argument::LowMemory)
        } else if is_literal(&string, "--tokenizer-path") {
            Ok(Argument::TokenizerPath)
        } else if is_literal(&string, "--tokenization-path") {
            Ok(Argument::TokenizationPath)
        } else {
            Err(concat_strings(&"Invalid argument: ".to_owned(), &string))
        }
    }
}

/// The value of a string of decimal digits.
pub open spec fn digits_value(s: Seq<char>) -> nat
    decreases s.len(),
{
    if s.len() == 0 {
        0
    } else {
        digits_value(s.drop_last()) * 10 + ((s.last() as u32 as nat) - 48) as nat
    }
}

/// Every character of `s` is a decimal digit.
pub open spec fn all_digits(s: Seq<char>) -> bool {
    forall|i: int| 0 <= i < s.len() ==> '0' <= #[trigger] s[i] && s[i] <= '9'
}

/// The `usize` that `s` writes: an optional `+`, then at least one decimal
/// digit and nothing else, of a value that fits.
pub open spec fn parsed_usize(s: Seq<char>) -> Option<usize> {
    let body = if s.len() > 0 && s[0] == '+' { s.skip(1) } else { s };
    if body.len() > 0 && all_digits(body) && digits_value(body) <= usize::MAX {
        Some(digits_value(body) as usize)
    } else {
        None
    }
}

/// The `usize` that `s` writes, if any (`str::parse::<usize>`).
#[verifier::external_body]
fn parse_usize(s: &String) -> (res: Option<usize>)
    ensures
        res == parsed_usize(s@),
{
    s.parse::<usize>().ok()
}

/// What the reader of the command line does with one argument.
pub enum Action {
    /// Nothing beyond moving on.
    Nothing,
    /// Turn on the low-memory mode.
    SetLowMemory,
    /// Add a file to the corpus.
    AddFile(String),
    /// Add the files of a directory to the corpus.
    ReadDir(String),
    SetVocabSize(usize),
    SetMinFrequency(usize),
    SetTokenizerPath(String),
    SetTokenizationPath(String),
    /// Stop with this message.
    Fail(String),
    /// The argument after `--low-mem` was read in a state that cannot occur
    /// after a flag read on its own.
    InvalidState,
}

/// The argument starts with `-`.
pub open spec fn is_flag(s: Seq<char>) -> bool {
    s.len() > 0 && s[0] == '-'
}

/// The state that a flag leads to, and the action; an error for a word that
/// names no flag.
pub open spec fn after_flag(arg: Seq<char>, state: Argument, action: Action) -> bool {
    match argument_named(arg) {
        Some(a) => state == a && action is Nothing,
        None => action matches Action::Fail(m) && m@ == "Invalid argument: "@ + arg,
    }
}

fn starts_with_dash(arg: &String) -> (res: bool)
    ensures
        res == is_flag(arg@),
{
    let chars = chars_of(arg);
    chars.len() > 0 && chars[0] == '-'
}

/// Reads one argument `arg` in the state `state`: the next state and what to do.
pub fn read_argument(state: Argument, arg: String) -> (res: (Argument, Action))
    ensures
        match state {
            Argument::Unset => match argument_named(arg@) {
                Some(Argument::LowMemory) => res.0 == Argument::Unset && res.1 is SetLowMemory,
                _ => after_flag(arg@, res.0, res.1),
            },
            Argument::Files => if is_flag(arg@) {
                after_flag(arg@, res.0, res.1)
            } else {
                res.0 == Argument::Files && (res.1 matches Action::AddFile(f) && f@ == arg@)
            },
            Argument::Dirs => if is_flag(arg@) {
                after_flag(arg@, res.0, res.1)
            } else {
                res.0 == Argument::Dirs && (res.1 matches Action::ReadDir(d) && d@ == arg@)
            },
            Argument::VocabSize => match parsed_usize(arg@) {
                Some(v) => res.0 == Argument::Unset && res.1 == Action::SetVocabSize(v),
                None => res.1 matches Action::Fail(m) && m@ == "Invalid value for --vocab-size: "@ + arg@,
            },
            Argument::MinFrequency => match parsed_usize(arg@) {
                Some(v) => if v < 2 {
                    res.1 matches Action::Fail(m) && m@ == "Invalid value for --min-freq: "@ + arg@ + ", value must be >= 2"@
                } else {
                    res.0 == Argument::Unset && res.1 == Action::SetMinFrequency(v)
                },
                None => res.1 matches Action::Fail(m) && m@ == "Invalid value for --min-freq: "@ + arg@,
            },
            Argument::LowMemory => res.0 == Argument::LowMemory && res.1 is InvalidState,
            Argument::TokenizerPath => res.0 == Argument::Unset && (res.1 matches Action::SetTokenizerPath(p) && p@ == arg@),
            Argument::TokenizationPath => res.0 == Argument::Unset && (res.1 matches Action::SetTokenizationPath(p) && p@ == arg@),
        },
{
    match state {
        Argument::Unset => {
            match Argument::from_string(arg) {
                Ok(Argument::LowMemory) => (Argument::Unset, Action::SetLowMemory),
                Ok(a) => (a, Action::Nothing),
                Err(m) => (state, Action::Fail(m)),
            }
        },
        Argument::Files => {
            if starts_with_dash(&arg) {
                match Argument::from_string(arg) {
                    Ok(a) => (a, Action::Nothing),
                    Err(m) => (state, Action::Fail(m)),
                }
            } else {
                (Argument::Files, Action::AddFile(arg))
            }
        },
        Argument::Dirs => {
            if starts_with_dash(&arg) {
                match Argument::from_string(arg) {
                    Ok(a) => (a, Action::Nothing),
                    Err(m) => (state, Action::Fail(m)),
                }
            } else {
                (Argument::Dirs, Action::ReadDir(arg))
            }
        },
        Argument::VocabSize => {
            match parse_usize(&arg) {
                Some(v) => (Argument::Unset, Action::SetVocabSize(v)),
                None => (state, Action::Fail(concat_strings(&"Invalid value for --vocab-size: ".to_owned(), &arg))),
            }
        },
        Argument::MinFrequency => {
            match parse_usize(&arg) {
                Some(v) => {
                    if v < 2 {
                        (state, Action::Fail(surround("Invalid value for --min-freq: ", &arg, ", value must be >= 2")))
                    } else {
                        (Argument::Unset, Action::SetMinFrequency(v))
                    }
                },
                None => (state, Action::Fail(concat_strings(&"Invalid value for --min-freq: ".to_owned(), &arg))),
            }
        },
        Argument::LowMemory => (Argument::LowMemory, Action::InvalidState),
        Argument::TokenizerPath => (Argument::Unset, Action::SetTokenizerPath(arg)),
        Argument::TokenizationPath => (Argument::Unset, Action::SetTokenizationPath(arg)),
    }
}

} // verus!
