//! JSON text of tokenizations and tokenizers.

use vstd::prelude::*;
use crate::merge::{Token, Rule};
use crate::cli::digits_value;
use crate::text::{joined, string_views, join_strings, concat_strings, chars_of, string_from_chars, lemma_char_code_injective};

verus! {

/// The code point of `c`.
pub open spec fn code_point(c: char) -> u32 {
    c as u32
}

/// The decimal digit `d`.
pub open spec fn digit_char(d: nat) -> char {
    (48 + d) as char
}

/// The decimal numeral of `n`, without leading zeros.
pub open spec fn decimal(n: nat) -> Seq<char>
    decreases n,
{
    if n < 10 {
        seq![digit_char(n)]
    } else {
        decimal(n / 10).push(digit_char(n % 10))
    }
}

/// The lower-case hexadecimal digit `d`.
pub open spec fn hex_digit(d: nat) -> char {
    if d < 10 {
        (48 + d) as char
    } else {
        (87 + d) as char
    }
}

/// The JSON escape of one character inside a string: a quote and a
/// backslash get a backslash, line feed, carriage return and tab their short
/// escapes, the other control characters below U+0020 a `\u00XX` escape;
/// every other character stands for itself.
pub open spec fn char_escape(c: char) -> Seq<char> {
    if c == '"' {
        seq!['\\', '"']
    } else if c == '\\' {
        seq!['\\', '\\']
    } else if c == '\n' {
        seq!['\\', 'n']
    } else if c == '\r' {
        seq!['\\', 'r']
    } else if c == '\t' {
        seq!['\\', 't']
    } else if (c as u32) < 0x20 {
        seq!['\\', 'u', '0', '0', hex_digit((c as u32 / 16) as nat), hex_digit((c as u32 % 16) as nat)]
    } else {
        seq![c]
    }
}

/// The JSON escape of a text: the escapes of its characters, in order.
pub open spec fn text_escape(s: Seq<char>) -> Seq<char>
    decreases s.len(),
{
    if s.len() == 0 {
        Seq::<char>::empty()
    } else {
        text_escape(s.drop_last()) + char_escape(s.last())
    }
}

/// The hexadecimal digit of `d`.
fn hex_digit_char(d: u32) -> (c: char)
    requires
        d < 16,
    ensures
        c == hex_digit(d as nat),
{
    if d < 10 {
        let b: u8 = 48 + d as u8;
        b as char
    } else {
        let b: u8 = 87 + d as u8;
        b as char
    }
}

/// Appends the JSON escape of `c` to `out`.
fn push_escape(out: &mut Vec<char>, c: char)
    ensures
        final(out)@ == old(out)@ + char_escape(c),
{
    let ghost before = out@;
    if c == '"' {
        out.push('\\');
        out.push('"');
    } else if c == '\\' {
        out.push('\\');
        out.push('\\');
    } else if c == '\n' {
        out.push('\\');
        out.push('n');
    } else if c == '\r' {
        out.push('\\');
        out.push('r');
    } else if c == '\t' {
        out.push('\\');
        out.push('t');
    } else if (c as u32) < 0x20 {
        let code = c as u32;
        out.push('\\');
        out.push('u');
        out.push('0');
        out.push('0');
        out.push(hex_digit_char(code / 16));
        out.push(hex_digit_char(code % 16));
    } else {
        out.push(c);
    }
    assert(out@ =~= before + char_escape(c));
}

/// The JSON escape of `c`.
fn escape_char(c: char) -> (s: String)
    ensures
        s@ == char_escape(c),
{
    let mut out: Vec<char> = Vec::new();
    push_escape(&mut out, c);
    assert(out@ =~= char_escape(c));
    string_from_chars(&out)
}

/// The JSON escape of `text`.
fn escape_text(text: &String) -> (s: String)
    ensures
        s@ == text_escape(text@),
{
    let chars = chars_of(text);
    let mut out: Vec<char> = Vec::new();
    let mut i: usize = 0;
    while i < chars.len()
        invariant
            chars@ == text@,
            i <= chars.len(),
            out@ == text_escape(chars@.take(i as int)),
        decreases chars.len() - i,
    {
        proof {
            assert(chars@.take(i + 1).drop_last() =~= chars@.take(i as int));
            assert(chars@.take(i + 1).last() == chars@[i as int]);
        }
        push_escape(&mut out, chars[i]);
        i += 1;
    }
    assert(chars@.take(i as int) =~= text@);
    string_from_chars(&out)
}

/// `n` in decimal (`usize::to_string`).
#[verifier::external_body]
pub(crate) fn usize_to_string(n: usize) -> (s: String)
    ensures
        s@ == decimal(n as nat),
{
    n.to_string()
}

/// The character whose code point is `code`, if there is one (`char::from_u32`).
#[verifier::external_body]
fn char_from_code(code: u32) -> (res: Option<char>)
    ensures
        res matches Some(c) ==> c as u32 == code,
        res is None ==> forall|c: char| #[trigger] code_point(c) != code,
{
    char::from_u32(code)
}

/// `a`, then `b`, then `c`.
pub fn surround(a: &str, b: &String, c: &str) -> (s: String)
    ensures
        s@ == a@ + b@ + c@,
{
    let head = concat_strings(&a.to_owned(), b);
    concat_strings(&head, &c.to_owned())
}

/// The JSON array of the numbers of `tokens`.
pub open spec fn tokens_json(tokens: Seq<Token>) -> Seq<char> {
    seq!['['] + joined(tokens.map_values(|t: Token| decimal(t.0 as nat)), seq![',']) + seq![']']
}

/// The JSON array of the tokenizations `texts`.
pub open spec fn corpus_json(texts: Seq<Seq<Token>>) -> Seq<char> {
    seq!['['] + joined(texts.map_values(|t: Seq<Token>| tokens_json(t)), seq![',']) + seq![']']
}

/// The JSON array of one rule: its pair and its replacement.
pub open spec fn rule_json(r: Rule) -> Seq<char> {
    seq!['['] + decimal(r.a.0 as nat) + seq![','] + decimal(r.b.0 as nat) + seq![','] + decimal(r.replacement.0 as nat) + seq![']']
}

/// The character that a code point of a table stands for; U+FFFD for a
/// number that is no code point.
pub open spec fn code_char(code: u32) -> char {
    if exists|c: char| #[trigger] code_point(c) == code {
        choose|c: char| #[trigger] code_point(c) == code
    } else {
        '\u{FFFD}'
    }
}

/// One entry of the character table: `"c":token`.
pub open spec fn entry_json(e: (u32, Token)) -> Seq<char> {
    seq!['"'] + char_escape(code_char(e.0)) + seq!['"', ':'] + decimal(e.1.0 as nat)
}

/// The JSON object of a tokenizer, with its table entries in the order `entries`.
pub open spec fn tokenizer_json(vocab: Seq<Seq<char>>, rules: Seq<Rule>, entries: Seq<(u32, Token)>) -> Seq<char> {
    let vocab_items = vocab.map_values(|v: Seq<char>| seq!['"'] + text_escape(v) + seq!['"']);
    let rule_items = rules.map_values(|r: Rule| rule_json(r));
    let entry_items = entries.map_values(|e: (u32, Token)| entry_json(e));
    "{\"vocab\":["@ + joined(vocab_items, seq![',']) + "],\"rules\":["@ + joined(rule_items, seq![','])
        + "],\"encoding_table\":{"@ + joined(entry_items, seq![',']) + "}}"@
}

/// `entries` lists the table `m`: each of its keys once, with its token.
pub open spec fn lists_table(entries: Seq<(u32, Token)>, m: Map<u32, Token>) -> bool {
    &&& entries.len() == m.dom().len()
    &&& forall|i: int| 0 <= i < entries.len() ==> m.contains_key((#[trigger] entries[i]).0) && m[entries[i].0] == entries[i].1
    &&& forall|i: int, j: int| 0 <= i < j < entries.len() ==> (#[trigger] entries[i]).0 != (#[trigger] entries[j]).0
    &&& forall|k: u32| #[trigger] m.contains_key(k) ==> exists|i: int| 0 <= i < entries.len() && (#[trigger] entries[i]).0 == k
}

/// The numbers of `tokens`, in decimal.
pub fn token_numerals(tokens: &Vec<Token>) -> (parts: Vec<String>)
    ensures
        string_views(parts@) == tokens@.map_values(|t: Token| decimal(t.0 as nat)),
{
    let mut parts: Vec<String> = Vec::new();
    let mut i: usize = 0;
    while i < tokens.len()
        invariant
            i <= tokens.len(),
            string_views(parts@) == tokens@.take(i as int).map_values(|t: Token| decimal(t.0 as nat)),
        decreases tokens.len() - i,
    {
        let s = usize_to_string(tokens[i].0);
        let ghost before = parts@;
        parts.push(s);
        assert(string_views(parts@) =~= string_views(before).push(s@));
        assert(string_views(parts@) =~= tokens@.take(i + 1).map_values(|t: Token| decimal(t.0 as nat)));
        i += 1;
    }
    assert(tokens@.take(i as int) =~= tokens@);
    parts
}

/// The JSON array of the numbers of `tokens`.
pub fn tokens_to_json(tokens: &Vec<Token>) -> (s: String)
    ensures
        s@ == tokens_json(tokens@),
{
    let parts = token_numerals(tokens);
    let inner = join_strings(&parts, ",");
    let s = surround("[", &inner, "]");
    proof {
        reveal_strlit("[");
        reveal_strlit(",");
        reveal_strlit("]");
        assert("["@ =~= seq!['[']);
        assert(","@ =~= seq![',']);
        assert("]"@ =~= seq![']']);
    }
    s
}

/// The JSON array of one rule.
pub fn rule_to_json(r: &Rule) -> (s: String)
    ensures
        s@ == rule_json(*r),
        read_rule(s@) == *r,
{
    let a = usize_to_string(r.a.0);
    let b = usize_to_string(r.b.0);
    let c = usize_to_string(r.replacement.0);
    let ab = surround("[", &a, ",");
    let abb = concat_strings(&ab, &b);
    let abbc = surround("", &abb, ",");
    let all = concat_strings(&abbc, &c);
    let s = surround("", &all, "]");
    proof {
        reveal_strlit("[");
        reveal_strlit(",");
        reveal_strlit("]");
        reveal_strlit("");
        assert("["@ =~= seq!['[']);
        assert(","@ =~= seq![',']);
        assert("]"@ =~= seq![']']);
        assert(""@ =~= Seq::<char>::empty());
        assert(s@ =~= rule_json(*r));
        lemma_rule_json_reads_back(*r);
    }
    s
}

/// The character of the code point `code`, U+FFFD when there is none.
fn code_to_char(code: u32) -> (c: char)
    ensures
        c == code_char(code),
{
    match char_from_code(code) {
        Some(c) => {
            proof {
                assert(code_point(c) == code);
                let c2 = choose|c2: char| #[trigger] code_point(c2) == code;
                if c2 != c {
                    lemma_char_code_injective(c2, c);
                }
            }
            c
        },
        None => '\u{FFFD}',
    }
}

/// One entry of the character table, `"c":token`.
pub fn entry_to_json(e: (u32, Token)) -> (s: String)
    ensures
        s@ == entry_json(e),
{
    let c = code_to_char(e.0);
    let esc = escape_char(c);
    let head = surround("\"", &esc, "\":");
    let num = usize_to_string(e.1.0);
    let s = concat_strings(&head, &num);
    proof {
        reveal_strlit("\"");
        reveal_strlit("\":");
        assert("\""@ =~= seq!['"']);
        assert("\":"@ =~= seq!['"', ':']);
        assert(s@ =~= entry_json(e));
    }
    s
}

/// A text, escaped and in double quotes.
pub fn quoted_escape(v: &String) -> (s: String)
    ensures
        s@ == seq!['"'] + text_escape(v@) + seq!['"'],
{
    let esc = escape_text(v);
    let s = surround("\"", &esc, "\"");
    proof {
        reveal_strlit("\"");
        assert("\""@ =~= seq!['"']);
    }
    s
}

/// `open`, then `items` joined with commas, then `close`.
pub fn json_list(open: &str, items: &Vec<String>, close: &str) -> (s: String)
    ensures
        s@ == open@ + joined(string_views(items@), seq![',']) + close@,
{
    let inner = join_strings(items, ",");
    proof {
        reveal_strlit(",");
        assert(","@ =~= seq![',']);
    }
    surround(open, &inner, close)
}

/// The characters of `s` before its first comma (all of `s` when it has
/// none).
pub open spec fn before_comma(s: Seq<char>) -> Seq<char>
    decreases s.len(),
{
    if s.len() == 0 || s[0] == ',' {
        Seq::<char>::empty()
    } else {
        seq![s[0]] + before_comma(s.skip(1))
    }
}

/// The characters of `s` after its first comma (none when it has none).
pub open spec fn after_comma(s: Seq<char>) -> Seq<char>
    decreases s.len(),
{
    if s.len() == 0 {
        Seq::<char>::empty()
    } else if s[0] == ',' {
        s.skip(1)
    } else {
        after_comma(s.skip(1))
    }
}

/// The rule that a JSON array of three decimal numbers, `[a,b,c]`, writes:
/// the pair `a`, `b` and the replacement `c`.
pub open spec fn read_rule(s: Seq<char>) -> Rule {
    let inner = s.subrange(1, s.len() - 1);
    let rest = after_comma(inner);
    Rule {
        a: Token(digits_value(before_comma(inner)) as usize),
        b: Token(digits_value(before_comma(rest)) as usize),
        replacement: Token(digits_value(after_comma(rest)) as usize),
    }
}

/// A decimal numeral is made of digits, and its digits are worth its number.
pub proof fn lemma_decimal_reads_back(n: nat)
    ensures
        decimal(n).len() >= 1,
        forall|i: int| 0 <= i < decimal(n).len() ==> '0' <= #[trigger] decimal(n)[i] && decimal(n)[i] <= '9',
        digits_value(decimal(n)) == n,
    decreases n,
{
    let s = decimal(n);
    if n < 10 {
        assert(digit_char(n) as u32 == 48 + n);
        assert(s.drop_last() =~= Seq::<char>::empty());
        assert(digits_value(s.drop_last()) == 0);
        assert(s.last() == digit_char(n));
        assert(digits_value(s) == digits_value(s.drop_last()) * 10 + ((s.last() as u32 as nat) - 48) as nat);
    } else {
        lemma_decimal_reads_back(n / 10);
        let d = n % 10;
        assert(digit_char(d) as u32 == 48 + d);
        assert(s.drop_last() =~= decimal(n / 10));
        assert(s.last() == digit_char(d));
        assert(digits_value(s) == digits_value(s.drop_last()) * 10 + ((s.last() as u32 as nat) - 48) as nat);
        assert(digits_value(s.drop_last()) == n / 10);
        assert(n == (n / 10) * 10 + d);
    }
}

/// Splitting `p`, then a comma, then `r`, at its first comma gives back `p`
/// and `r`, when `p` has no comma.
proof fn lemma_comma_split(p: Seq<char>, r: Seq<char>)
    requires
        forall|i: int| 0 <= i < p.len() ==> #[trigger] p[i] != ',',
    ensures
        before_comma(p + seq![','] + r) == p,
        after_comma(p + seq![','] + r) == r,
    decreases p.len(),
{
    let s = p + seq![','] + r;
    if p.len() == 0 {
        assert(s[0] == ',');
        assert(s.skip(1) =~= r);
    } else {
        assert(p[0] != ',');
        assert(s.skip(1) =~= p.skip(1) + seq![','] + r);
        assert forall|i: int| 0 <= i < p.skip(1).len() implies #[trigger] p.skip(1)[i] != ',' by {
            assert(p.skip(1)[i] == p[i + 1]);
        }
        lemma_comma_split(p.skip(1), r);
        assert(seq![p[0]] + p.skip(1) =~= p);
    }
}

/// Law: reading back the JSON that [`rule_to_json`] writes for a rule gives
/// that rule: its first token, its second token and its replacement, in
/// that order.
pub proof fn lemma_rule_json_reads_back(r: Rule)
    ensures
        read_rule(rule_json(r)) == r,
{
    let da = decimal(r.a.0 as nat);
    let db = decimal(r.b.0 as nat);
    let dc = decimal(r.replacement.0 as nat);
    lemma_decimal_reads_back(r.a.0 as nat);
    lemma_decimal_reads_back(r.b.0 as nat);
    lemma_decimal_reads_back(r.replacement.0 as nat);
    let s = rule_json(r);
    let rest = db + seq![','] + dc;
    let inner = da + seq![','] + rest;
    assert(s.subrange(1, s.len() - 1) =~= inner);
    assert forall|i: int| 0 <= i < da.len() implies #[trigger] da[i] != ',' by {
        assert('0' <= da[i]);
    }
    assert forall|i: int| 0 <= i < db.len() implies #[trigger] db[i] != ',' by {
        assert('0' <= db[i]);
    }
    lemma_comma_split(da, rest);
    lemma_comma_split(db, dc);
}

/// Joining one more part appends it, after the separator when there are
/// other parts.
proof fn lemma_joined_push(parts: Seq<Seq<char>>, p: Seq<char>, sep: Seq<char>)
    ensures
        joined(parts.push(p), sep) == if parts.len() == 0 { p } else { joined(parts, sep) + sep + p },
{
    assert(parts.push(p).drop_last() =~= parts);
    assert(parts.push(p).last() == p);
    if parts.len() == 0 {
        assert(parts.push(p)[0] == p);
    }
}

/// Law: the JSON of an encoded corpus holds one array per text, in the
/// texts' order: no texts give `[]`, and one more text `t`, empty or not,
/// adds the array of `t`'s tokens after the others (after a comma when there
/// are others).
pub proof fn lemma_corpus_json_appends(texts: Seq<Seq<Token>>, t: Seq<Token>)
    ensures
        corpus_json(Seq::<Seq<Token>>::empty()) == seq!['[', ']'],
        corpus_json(texts.push(t)) == corpus_json(texts).drop_last()
            + (if texts.len() == 0 { Seq::<char>::empty() } else { seq![','] }) + tokens_json(t) + seq![']'],
{
    let f = |u: Seq<Token>| tokens_json(u);
    let parts = texts.map_values(f);
    assert(Seq::<Seq<Token>>::empty().map_values(f) =~= Seq::<Seq<char>>::empty());
    assert(seq!['['] + Seq::<char>::empty() + seq![']'] =~= seq!['[', ']']);
    assert(texts.push(t).map_values(f) =~= parts.push(tokens_json(t)));
    lemma_joined_push(parts, tokens_json(t), seq![',']);
    let front = seq!['['] + joined(parts, seq![',']);
    assert((front + seq![']']).drop_last() =~= front);
    if texts.len() == 0 {
        assert(seq!['['] + tokens_json(t) + seq![']'] =~= front + Seq::<char>::empty() + tokens_json(t) + seq![']']);
    } else {
        assert(seq!['['] + (joined(parts, seq![',']) + seq![','] + tokens_json(t)) + seq![']'] =~= front + seq![','] + tokens_json(t) + seq![']']);
    }
}

/// Law: the JSON array of a sequence of tokens writes each token's number,
/// in order: no tokens give `[]`, and one more token adds its number after
/// the others (after a comma when there are others).
pub proof fn lemma_tokens_json_appends(tokens: Seq<Token>, t: Token)
    ensures
        tokens_json(Seq::<Token>::empty()) == seq!['[', ']'],
        tokens_json(tokens.push(t)) == tokens_json(tokens).drop_last()
            + (if tokens.len() == 0 { Seq::<char>::empty() } else { seq![','] }) + decimal(t.0 as nat) + seq![']'],
{
    let f = |u: Token| decimal(u.0 as nat);
    let parts = tokens.map_values(f);
    assert(Seq::<Token>::empty().map_values(f) =~= Seq::<Seq<char>>::empty());
    assert(seq!['['] + Seq::<char>::empty() + seq![']'] =~= seq!['[', ']']);
    assert(tokens.push(t).map_values(f) =~= parts.push(decimal(t.0 as nat)));
    lemma_joined_push(parts, decimal(t.0 as nat), seq![',']);
    let front = seq!['['] + joined(parts, seq![',']);
    assert((front + seq![']']).drop_last() =~= front);
    if tokens.len() == 0 {
        assert(seq!['['] + decimal(t.0 as nat) + seq![']'] =~= front + Seq::<char>::empty() + decimal(t.0 as nat) + seq![']']);
    } else {
        assert(seq!['['] + (joined(parts, seq![',']) + seq![','] + decimal(t.0 as nat)) + seq![']'] =~= front + seq![','] + decimal(t.0 as nat) + seq![']']);
    }
}

} // verus!
