//! A tokenizer trained on a corpus of texts, with the encoded corpus.

use vstd::prelude::*;
use std::collections::HashMap;
use rayon::iter::{IntoParallelRefMutIterator, ParallelIterator};
use crate::pair_search::{encodings_view, any_pair};
use rustc_hash::FxBuildHasher;
use crate::merge::{Token, Rule, pair_occurs, concat_pieces, into_boxed_tokens};
use crate::counting::{count_table, pair_first, pair_second, tokens_below, total_len, as_ints, is_last_max};
use crate::training::{apply_rules, apply_rules_all, apply_rule_all, lemma_apply_rules_push, lemma_apply_rules_all_push, lemma_apply_rules_all_index, train_rules, best_rule, stops, continues, is_max_step, is_max_prefix, is_max_run, initial_token, initial_encoding, initial_encodings, lemma_tokens_below_step, lemma_apply_total_len, lemma_max_prefix_push, lemma_total_len_matches, lemma_encoding_spells_text, lemma_apply_rules_len, lemma_train_rules_shape, count_table_len, fresh_rules, lemma_apply_rules_leaves_no_pair, lemma_numbered_rules_fresh, lemma_max_prefix_shape, lemma_count_table_len_grows, lemma_count_table_len_square, lemma_train_rules_vocab_prefix, lemma_train_rules_frequency_prefix, lemma_max_run_unique, unique_maxima};
use crate::counting::{best_count, best_index, lemma_best_index, lemma_last_max_unique, lemma_corpus_count_occurs, lemma_no_pair_best_count};
use crate::json::{tokens_json, corpus_json, tokenizer_json, lists_table, tokens_to_json, rule_to_json, entry_to_json, quoted_escape, json_list, rule_json, entry_json, text_escape};
use crate::text::{chars_of, join_strings, string_views, lemma_joined_pieces, corpus_text, corpus_chars, strictly_increasing, distinct_sorted, char_to_string, concat_strings, lemma_corpus_text_push, is_char_table, lemma_char_table, lemma_char_table_dom, lemma_increasing_index, lemma_increasing_set_len, lemma_char_code_injective};

verus! {

/// `rustc_hash::FxBuildHasher`, the hasher of the tokenizer's tables.
#[verifier::external_type_specification]
#[verifier::external_body]
pub struct ExFxBuildHasher(FxBuildHasher);

/// An empty table with the Fx hasher (`HashMap::with_hasher(FxBuildHasher)`).
#[verifier::external_body]
pub(crate) fn new_fx_map<K, V>() -> (m: HashMap<K, V, FxBuildHasher>)
    ensures
        forall|k: K| !(#[trigger] m@.contains_key(k)),
{
    HashMap::with_hasher(FxBuildHasher)
}

/// Sets the token of the character code `k` (`HashMap::insert`).
#[verifier::external_body]
fn char_table_insert(m: &mut HashMap<u32, Token, FxBuildHasher>, k: u32, t: Token)
    ensures
        final(m)@ == old(m)@.insert(k, t),
{
    m.insert(k, t);
}

/// The token of the character code `k`, if any (`HashMap::get`).
#[verifier::external_body]
fn char_table_get(m: &HashMap<u32, Token, FxBuildHasher>, k: u32) -> (res: Option<Token>)
    ensures
        res == if m@.contains_key(k) { Some(m@[k]) } else { None::<Token> },
{
    m.get(&k).copied()
}

/// The number of characters in the table (`HashMap::len`).
#[verifier::external_body]
fn char_table_len(m: &HashMap<u32, Token, FxBuildHasher>) -> (n: usize)
    ensures
        n == m@.dom().len(),
{
    m.len()
}

/// The entries of the table, in the order in which the table is walked
/// (`HashMap::iter`); that order is not fixed.
#[verifier::external_body]
fn char_table_entries(m: &HashMap<u32, Token, FxBuildHasher>) -> (res: Vec<(u32, Token)>)
    ensures
        res@.len() == m@.dom().len(),
        forall|i: int| 0 <= i < res@.len() ==> m@.contains_key((#[trigger] res@[i]).0) && m@[res@[i].0] == res@[i].1,
        forall|i: int, j: int| 0 <= i < j < res@.len() ==> (#[trigger] res@[i]).0 != (#[trigger] res@[j]).0,
        forall|k: u32| #[trigger] m@.contains_key(k) ==> exists|i: int| 0 <= i < res@.len() && (#[trigger] res@[i]).0 == k,
{
    m.iter().map(|(k, t)| (*k, *t)).collect()
}

/// Runs the merge pass of `rule` over every encoding, in parallel
/// (rayon's `par_iter_mut().for_each` with [`Rule::apply_ip`]).
#[verifier::external_body]
fn apply_rule_to_each(rule: &Rule, encodings: &mut Vec<Vec<Token>>)
    ensures
        encodings_view(final(encodings)@) == apply_rule_all(*rule, encodings_view(old(encodings)@)),
{
    encodings.par_iter_mut().for_each(|encoding| rule.apply_ip(encoding));
}

/// The tokens of one text.
pub struct Tokenization {
    tokens: Box<[Token]>,
}

impl Tokenization {
    pub closed spec fn tokens_view(&self) -> Seq<Token> {
        self.tokens@
    }

    pub fn from_vec(vec: Vec<Token>) -> (t: Self)
        ensures
            t.tokens_view() == vec@,
    {
        Tokenization { tokens: into_boxed_tokens(vec) }
    }

    /// The JSON array of the token numbers.
    pub fn to_json(&self) -> (s: String)
        ensures
            s@ == tokens_json(self.tokens_view()),
    {
        let v = self.to_vec();
        tokens_to_json(&v)
    }

    /// The number of tokens.
    pub fn len(&self) -> (n: usize)
        ensures
            n == self.tokens_view().len(),
    {
        self.tokens.len()
    }

    /// The tokens, as a vector.
    pub fn to_vec(&self) -> (v: Vec<Token>)
        ensures
            v@ == self.tokens_view(),
    {
        let mut v: Vec<Token> = Vec::new();
        let mut i: usize = 0;
        while i < self.tokens.len()
            invariant
                i <= self.tokens@.len(),
                v@ == self.tokens@.take(i as int),
            decreases self.tokens@.len() - i,
        {
            v.push(self.tokens[i]);
            assert(v@ =~= self.tokens@.take(i + 1));
            i += 1;
        }
        assert(self.tokens@.take(i as int) =~= self.tokens@);
        v
    }
}

/// The tokens of every text of a corpus.
pub struct CorpusTokenization {
    tokenizations: Vec<Tokenization>,
}

impl CorpusTokenization {
    pub closed spec fn texts_tokens(&self) -> Seq<Seq<Token>> {
        self.tokenizations@.map_values(|t: Tokenization| t.tokens_view())
    }

    pub fn new(tokenizations: Vec<Tokenization>) -> (c: Self)
        ensures
            c.texts_tokens() == tokenizations@.map_values(|t: Tokenization| t.tokens_view()),
    {
        CorpusTokenization { tokenizations }
    }

    /// The JSON array of the tokenizations of the texts.
    pub fn to_json(&self) -> (s: String)
        ensures
            s@ == corpus_json(self.texts_tokens()),
    {
        let mut items: Vec<String> = Vec::new();
        let mut i: usize = 0;
        while i < self.tokenizations.len()
            invariant
                i <= self.tokenizations@.len(),
                string_views(items@) == self.texts_tokens().take(i as int).map_values(|t: Seq<Token>| tokens_json(t)),
            decreases self.tokenizations@.len() - i,
        {
            let item = self.tokenizations[i].to_json();
            let ghost before = items@;
            items.push(item);
            assert(string_views(items@) =~= string_views(before).push(item@));
            assert(string_views(items@) =~= self.texts_tokens().take(i + 1).map_values(|t: Seq<Token>| tokens_json(t)));
            i += 1;
        }
        assert(self.texts_tokens().take(i as int) =~= self.texts_tokens());
        let s = json_list("[", &items, "]");
        proof {
            reveal_strlit("[");
            reveal_strlit("]");
            assert("["@ =~= seq!['[']);
            assert("]"@ =~= seq![']']);
        }
        s
    }

    /// The number of texts.
    pub fn len(&self) -> (n: usize)
        ensures
            n == self.texts_tokens().len(),
    {
        self.tokenizations.len()
    }

    /// The tokens of text `i`.
    pub fn get(&self, i: usize) -> (t: &Tokenization)
        requires
            i < self.texts_tokens().len(),
        ensures
            t.tokens_view() == self.texts_tokens()[i as int],
    {
        &self.tokenizations[i]
    }
}

/// A tokenizer trained on a corpus.
pub struct BPETokenizer {
    /// The text of each token, by index.
    vocab: Vec<String>,
    /// The merge rules, in the order in which they are applied.
    rules: Vec<Rule>,
    /// The token of each character, keyed by code point.
    encoding_table: HashMap<u32, Token, FxBuildHasher>,
}

impl BPETokenizer {
    /// The text of each token, by index.
    pub closed spec fn vocab_texts(&self) -> Seq<Seq<char>> {
        string_views(self.vocab@)
    }

    /// The merge rules, first to last.
    pub closed spec fn merge_rules(&self) -> Seq<Rule> {
        self.rules@
    }

    /// The token of each character, keyed by code point.
    pub closed spec fn char_tokens(&self) -> Map<u32, Token> {
        self.encoding_table@
    }

    pub open spec fn knows_char(&self, c: char) -> bool {
        self.char_tokens().contains_key(c as u32)
    }

    pub open spec fn char_token(&self, c: char) -> Token {
        self.char_tokens()[c as u32]
    }

    pub open spec fn has_token(&self, t: Token) -> bool {
        t.0 < self.vocab_texts().len()
    }

    /// The text of each token, as a function.
    pub open spec fn piece(&self) -> spec_fn(Token) -> Seq<char> {
        |t: Token| self.vocab_texts()[t.0 as int]
    }

    /// The tokens of `text`: its characters' tokens, merged by every rule in turn.
    pub open spec fn encoding_of(&self, text: Seq<char>) -> Seq<Token> {
        apply_rules(self.merge_rules(), text.map_values(|c: char| self.char_token(c)))
    }

    /// The text spelled by `toks`.
    pub open spec fn decoding_of(&self, toks: Seq<Token>) -> Seq<char> {
        concat_pieces(self.piece(), toks)
    }

    /// Every character's token spells that character, and every rule's
    /// replacement spells its pair.
    pub open spec fn well_formed(&self) -> bool {
        &&& forall|c: char| #[trigger] self.knows_char(c) ==>
            self.has_token(self.char_token(c)) && self.piece()(self.char_token(c)) == seq![c]
        &&& forall|i: int| 0 <= i < self.merge_rules().len() ==> {
            let r = #[trigger] self.merge_rules()[i];
            &&& self.has_token(r.a)
            &&& self.has_token(r.b)
            &&& self.has_token(r.replacement)
            &&& self.piece()(r.replacement) == self.piece()(r.a) + self.piece()(r.b)
        }
    }

    pub fn new(vocab: Vec<String>, rules: Vec<Rule>, encoding_table: HashMap<u32, Token, FxBuildHasher>) -> (tok: Self)
        ensures
            tok.vocab_texts() == string_views(vocab@),
            tok.merge_rules() == rules@,
            tok.char_tokens() == encoding_table@,
    {
        BPETokenizer { vocab, rules, encoding_table }
    }

    /// The JSON object of the tokenizer: its vocabulary, its rules and its
    /// character table; the table's entries come in the order in which the
    /// table is walked, which is not fixed.
    pub fn to_json(&self) -> (s: String)
        ensures
            exists|entries: Seq<(u32, Token)>| lists_table(entries, self.char_tokens())
                && s@ == tokenizer_json(self.vocab_texts(), self.merge_rules(), entries),
    {
        let entries = char_table_entries(&self.encoding_table);
        let mut entry_items: Vec<String> = Vec::new();
        let mut i: usize = 0;
        while i < entries.len()
            invariant
                i <= entries@.len(),
                string_views(entry_items@) == entries@.take(i as int).map_values(|e: (u32, Token)| entry_json(e)),
            decreases entries@.len() - i,
        {
            let item = entry_to_json(entries[i]);
            let ghost before = entry_items@;
            entry_items.push(item);
            assert(string_views(entry_items@) =~= string_views(before).push(item@));
            assert(string_views(entry_items@) =~= entries@.take(i + 1).map_values(|e: (u32, Token)| entry_json(e)));
            i += 1;
        }
        assert(entries@.take(i as int) =~= entries@);
        let mut vocab_items: Vec<String> = Vec::new();
        let mut i: usize = 0;
        while i < self.vocab.len()
            invariant
                i <= self.vocab@.len(),
                string_views(vocab_items@) == self.vocab_texts().take(i as int).map_values(|v: Seq<char>| seq!['"'] + text_escape(v) + seq!['"']),
            decreases self.vocab@.len() - i,
        {
            let item = quoted_escape(&self.vocab[i]);
            let ghost before = vocab_items@;
            vocab_items.push(item);
            assert(string_views(vocab_items@) =~= string_views(before).push(item@));
            assert(string_views(vocab_items@) =~= self.vocab_texts().take(i + 1).map_values(|v: Seq<char>| seq!['"'] + text_escape(v) + seq!['"']));
            i += 1;
        }
        assert(self.vocab_texts().take(i as int) =~= self.vocab_texts());
        let mut rule_items: Vec<String> = Vec::new();
        let mut i: usize = 0;
        while i < self.rules.len()
            invariant
                i <= self.rules@.len(),
                string_views(rule_items@) == self.rules@.take(i as int).map_values(|r: Rule| rule_json(r)),
            decreases self.rules@.len() - i,
        {
            let item = rule_to_json(&self.rules[i]);
            let ghost before = rule_items@;
            rule_items.push(item);
            assert(string_views(rule_items@) =~= string_views(before).push(item@));
            assert(string_views(rule_items@) =~= self.rules@.take(i + 1).map_values(|r: Rule| rule_json(r)));
            i += 1;
        }
        assert(self.rules@.take(i as int) =~= self.rules@);
        let vocab_json = json_list("{\"vocab\":[", &vocab_items, "],\"rules\":[");
        let rules_json = json_list("", &rule_items, "],\"encoding_table\":{");
        let table_json = json_list("", &entry_items, "}}");
        let head = concat_strings(&vocab_json, &rules_json);
        let s = concat_strings(&head, &table_json);
        proof {
            reveal_strlit("");
            assert(""@ =~= Seq::<char>::empty());
            assert(lists_table(entries@, self.char_tokens()));
            assert(s@ =~= tokenizer_json(self.vocab_texts(), self.merge_rules(), entries@));
        }
        s
    }

    /// The number of tokens.
    pub fn vocab_len(&self) -> (n: usize)
        ensures
            n == self.vocab_texts().len(),
    {
        self.vocab.len()
    }

    /// The number of characters in the alphabet.
    pub fn num_chars(&self) -> (n: usize)
        ensures
            n == self.char_tokens().dom().len(),
    {
        char_table_len(&self.encoding_table)
    }

    /// The tokens of `text`.
    pub fn encode(&self, text: &String) -> (res: Tokenization)
        requires
            forall|i: int| 0 <= i < text@.len() ==> self.knows_char(#[trigger] text@[i]),
        ensures
            res.tokens_view() == self.encoding_of(text@),
            fresh_rules(self.merge_rules()) ==> forall|k: int| 0 <= k < self.merge_rules().len()
                ==> !pair_occurs(res.tokens_view(), (#[trigger] self.merge_rules()[k]).a, self.merge_rules()[k].b),
    {
        let chars = chars_of(text);
        let mut encoding: Vec<Token> = Vec::new();
        let mut j: usize = 0;
        while j < chars.len()
            invariant
                chars@ == text@,
                j <= chars.len(),
                forall|i: int| 0 <= i < text@.len() ==> self.knows_char(#[trigger] text@[i]),
                encoding@ == chars@.take(j as int).map_values(|c: char| self.char_token(c)),
            decreases chars.len() - j,
        {
            let c = chars[j];
            assert(self.knows_char(text@[j as int]));
            let t = char_table_get(&self.encoding_table, c as u32).unwrap();
            encoding.push(t);
            assert(encoding@ =~= chars@.take(j + 1).map_values(|c: char| self.char_token(c)));
            j += 1;
        }
        assert(chars@.take(j as int) =~= text@);
        let ghost initial = encoding@;
        let mut i: usize = 0;
        while i < self.rules.len()
            invariant
                i <= self.rules.len(),
                encoding@ == apply_rules(self.rules@.take(i as int), initial),
            decreases self.rules.len() - i,
        {
            self.rules[i].apply_ip(&mut encoding);
            proof {
                assert(self.rules@.take(i + 1) =~= self.rules@.take(i as int).push(self.rules@[i as int]));
                lemma_apply_rules_push(self.rules@.take(i as int), self.rules@[i as int], initial);
            }
            i += 1;
        }
        assert(self.rules@.take(i as int) =~= self.rules@);
        proof {
            if fresh_rules(self.rules@) {
                lemma_apply_rules_leaves_no_pair(self.rules@, initial);
            }
        }
        Tokenization::from_vec(encoding)
    }

    /// The text spelled by `tokenization`.
    pub fn decode(&self, tokenization: Tokenization) -> (res: String)
        requires
            forall|i: int| 0 <= i < tokenization.tokens_view().len() ==> self.has_token(#[trigger] tokenization.tokens_view()[i]),
        ensures
            res@ == self.decoding_of(tokenization.tokens_view()),
    {
        let toks = tokenization.to_vec();
        let mut parts: Vec<String> = Vec::new();
        let mut i: usize = 0;
        while i < toks.len()
            invariant
                i <= toks.len(),
                toks@ == tokenization.tokens_view(),
                forall|k: int| 0 <= k < toks@.len() ==> self.has_token(#[trigger] toks@[k]),
                string_views(parts@) == toks@.take(i as int).map_values(self.piece()),
            decreases toks.len() - i,
        {
            assert(self.has_token(toks@[i as int]));
            let s = self.vocab[toks[i].0].clone();
            let ghost before = parts@;
            parts.push(s);
            assert(string_views(parts@) =~= string_views(before).push(s@));
            assert(string_views(parts@) =~= toks@.take(i + 1).map_values(self.piece()));
            i += 1;
        }
        assert(toks@.take(i as int) =~= toks@);
        let res = join_strings(&parts, "");
        proof {
            reveal_strlit("");
            assert(""@ =~= Seq::<char>::empty());
            lemma_joined_pieces(self.piece(), toks@);
        }
        res
    }
}

/// The distinct characters of a corpus, by ascending code point.
fn corpus_alphabet(corpus: &Vec<String>) -> (sorted: Vec<char>)
    ensures
        strictly_increasing(sorted@),
        sorted@.to_set() == corpus_chars(string_views(corpus@)),
{
    let ghost cv = string_views(corpus@);
    let mut all: Vec<char> = Vec::new();
    let mut j: usize = 0;
    while j < corpus.len()
        invariant
            cv == string_views(corpus@),
            j <= corpus.len(),
            all@ == corpus_text(cv.take(j as int)),
        decreases corpus.len() - j,
    {
        let mut cs = chars_of(&corpus[j]);
        all.append(&mut cs);
        proof {
            assert(cv.take(j + 1) =~= cv.take(j as int).push(cv[j as int]));
            lemma_corpus_text_push(cv.take(j as int), cv[j as int]);
        }
        j += 1;
    }
    assert(cv.take(j as int) =~= cv);
    distinct_sorted(all)
}

/// One token per character of `sorted`: the character's text, and the table
/// from code points to tokens.
fn alphabet_tokens(sorted: &Vec<char>) -> (res: (Vec<String>, HashMap<u32, Token, FxBuildHasher>))
    requires
        strictly_increasing(sorted@),
    ensures
        res.0@.len() == sorted@.len(),
        forall|k: int| 0 <= k < sorted@.len() ==> #[trigger] res.0@[k]@ == seq![sorted@[k]],
        is_char_table(res.1@, sorted@),
{
    let mut vocab: Vec<String> = Vec::new();
    let mut table = new_fx_map();
    let mut i: usize = 0;
    while i < sorted.len()
        invariant
            strictly_increasing(sorted@),
            i <= sorted.len(),
            vocab@.len() == i,
            forall|k: int| 0 <= k < i ==> #[trigger] vocab@[k]@ == seq![sorted@[k]],
            is_char_table(table@, sorted@.take(i as int)),
        decreases sorted.len() - i,
    {
        let c = sorted[i];
        proof {
            assert forall|k: int| 0 <= k < i implies sorted@[k] as u32 != c as u32 by {
                assert((sorted@[k] as u32) < (sorted@[i as int] as u32));
            }
        }
        vocab.push(char_to_string(c));
        char_table_insert(&mut table, c as u32, Token(i));
        proof {
            let next = sorted@.take(i + 1);
            assert forall|key: u32| #[trigger] table@.contains_key(key) <==> exists|k: int| 0 <= k < next.len() && next[k] as u32 == key by {
                if key == c as u32 {
                    assert(next[i as int] as u32 == key);
                } else if table@.contains_key(key) {
                    let k = choose|k: int| 0 <= k < i && sorted@.take(i as int)[k] as u32 == key;
                    assert(next[k] as u32 == key);
                } else {
                    if exists|k: int| 0 <= k < next.len() && next[k] as u32 == key {
                        let k = choose|k: int| 0 <= k < next.len() && next[k] as u32 == key;
                        assert(sorted@.take(i as int)[k] as u32 == key);
                    }
                }
            }
            assert forall|k: int| 0 <= k < next.len() implies #[trigger] table@[next[k] as u32] == Token(k as usize) by {
                if k < i {
                    assert(sorted@.take(i as int)[k] == next[k]);
                }
            }
        }
        i += 1;
    }
    assert(sorted@.take(i as int) =~= sorted@);
    (vocab, table)
}

/// Every text of a corpus as the tokens of its characters.
fn encode_chars(corpus: &Vec<String>, sorted: &Vec<char>, table: &HashMap<u32, Token, FxBuildHasher>) -> (encs: Vec<Vec<Token>>)
    requires
        strictly_increasing(sorted@),
        sorted@.to_set() == corpus_chars(string_views(corpus@)),
        is_char_table(table@, sorted@),
    ensures
        encodings_view(encs@) == initial_encodings(string_views(corpus@)),
{
    let ghost cv = string_views(corpus@);
    let mut encs: Vec<Vec<Token>> = Vec::new();
    let mut j: usize = 0;
    while j < corpus.len()
        invariant
            cv == string_views(corpus@),
            strictly_increasing(sorted@),
            sorted@.to_set() == corpus_chars(cv),
            is_char_table(table@, sorted@),
            j <= corpus.len(),
            encs@.len() == j,
            encodings_view(encs@) == initial_encodings(cv).take(j as int),
        decreases corpus.len() - j,
    {
        let chars = chars_of(&corpus[j]);
        let ghost text = cv[j as int];
        proof {
            lemma_corpus_text_member(cv, j as int);
        }
        let mut e: Vec<Token> = Vec::new();
        let mut i: usize = 0;
        while i < chars.len()
            invariant
                chars@ == text,
                text == cv[j as int],
                j < cv.len(),
                strictly_increasing(sorted@),
                sorted@.to_set() == corpus_chars(cv),
                is_char_table(table@, sorted@),
                forall|c: char| text.contains(c) ==> corpus_chars(cv).contains(c),
                i <= chars.len(),
                e@ == initial_encoding(cv, chars@.take(i as int)),
            decreases chars.len() - i,
        {
            let c = chars[i];
            proof {
                assert(text.contains(c));
                assert(sorted@.to_set().contains(c));
                lemma_char_table(table@, sorted@, c);
            }
            let t = char_table_get(table, c as u32).unwrap();
            e.push(t);
            assert(e@ =~= initial_encoding(cv, chars@.take(i + 1)));
            i += 1;
        }
        assert(chars@.take(i as int) =~= text);
        assert(initial_encodings(cv)[j as int] == initial_encoding(cv, text));
        let ghost before = encs@;
        let ghost ev = e@;
        encs.push(e);
        assert(encodings_view(encs@) =~= initial_encodings(cv).take(j + 1));
        j += 1;
    }
    assert(initial_encodings(cv).take(j as int) =~= initial_encodings(cv));
    encs
}

/// Every character of a text of the corpus is a character of the corpus.
proof fn lemma_corpus_text_member(cv: Seq<Seq<char>>, j: int)
    requires
        0 <= j < cv.len(),
    ensures
        forall|c: char| cv[j].contains(c) ==> corpus_chars(cv).contains(c),
    decreases cv.len(),
{
    lemma_corpus_text_push(cv.drop_last(), cv.last());
    assert(cv.drop_last().push(cv.last()) =~= cv);
    if j < cv.len() - 1 {
        lemma_corpus_text_member(cv.drop_last(), j);
        assert(cv.drop_last()[j] == cv[j]);
        assert forall|c: char| cv[j].contains(c) implies corpus_chars(cv).contains(c) by {
            assert(corpus_chars(cv.drop_last()).contains(c));
            let k = choose|k: int| 0 <= k < corpus_text(cv.drop_last()).len() && corpus_text(cv.drop_last())[k] == c;
            assert(corpus_text(cv)[k] == c);
        }
    } else {
        assert forall|c: char| cv[j].contains(c) implies corpus_chars(cv).contains(c) by {
            let k = choose|k: int| 0 <= k < cv[j].len() && cv[j][k] == c;
            assert(corpus_text(cv)[corpus_text(cv.drop_last()).len() + k] == c);
        }
    }
}

/// With no vocabulary size, the array of counts that training on `corpus`
/// grows fits in a `usize` at the token where training stops.
pub open spec fn count_table_fits(corpus: Seq<Seq<char>>, min_frequency: nat) -> bool {
    let d = corpus_chars(corpus).len();
    count_table_len(d, d + train_rules(initial_encodings(corpus), d, 0, min_frequency).len()) <= usize::MAX
}

impl BPETokenizer {
    /// `self` is a tokenizer that training on `corpus` gives, with the
    /// vocabulary size `vocab_size` (0: no limit), merging only pairs that
    /// occur at least `min_frequency` times; `low_memory` lets any of equally
    /// common pairs be merged.
    pub open spec fn trained_on(&self, corpus: Seq<Seq<char>>, vocab_size: nat, min_frequency: nat, low_memory: bool) -> bool {
        let chars = corpus_chars(corpus);
        let d = chars.len();
        let init = initial_encodings(corpus);
        &&& self.well_formed()
        &&& low_memory ==> is_max_run(init, d, self.merge_rules(), vocab_size, min_frequency)
        &&& !low_memory ==> self.merge_rules() == train_rules(init, d, vocab_size, min_frequency)
        &&& forall|c: char| #[trigger] self.knows_char(c) <==> chars.contains(c)
        &&& forall|c: char| chars.contains(c) ==> #[trigger] self.char_token(c) == initial_token(corpus, c)
        &&& self.vocab_texts().len() == d + self.merge_rules().len()
        &&& d + self.merge_rules().len() <= usize::MAX
        &&& chars.map(|c: char| self.char_token(c).0) == Set::new(|k: usize| k < d)
        &&& self.char_tokens().dom() == chars.map(|c: char| c as u32)
    }

    /// Trains a tokenizer on `corpus` and returns it with the encoded corpus.
    /// Starting from one token per distinct character (numbered in code point
    /// order), it repeatedly merges the most common pair of adjacent tokens
    /// into a new token, while that pair occurs at least `min_frequency` times
    /// and, when `vocab_size` is not 0, fewer than `vocab_size` tokens exist.
    /// Among equally common pairs it merges the last in the order of the index
    /// `a + b * n`; `low_memory` counts pairs in a hash table instead, and may
    /// merge any of them. In both modes training stops once no text has two
    /// tokens left.
    pub fn from_corpus(corpus: &Vec<String>, vocab_size: usize, min_frequency: usize, low_memory: bool) -> (res: (Self, CorpusTokenization))
        requires
            corpus_text(string_views(corpus@)).len() >= 1,
            vocab_size == 0 || vocab_size >= corpus_chars(string_views(corpus@)).len(),
            min_frequency >= 1,
            corpus_text(string_views(corpus@)).len() <= usize::MAX,
            !low_memory ==> vocab_size * vocab_size <= usize::MAX,
            !low_memory && vocab_size == 0 ==> count_table_fits(string_views(corpus@), min_frequency as nat),
        ensures
            res.0.trained_on(string_views(corpus@), vocab_size as nat, min_frequency as nat, low_memory),
            res.1.texts_tokens() == apply_rules_all(res.0.merge_rules(), initial_encodings(string_views(corpus@))),
            res.1.texts_tokens().len() == corpus@.len(),
            forall|i: int| 0 <= i < corpus@.len() ==> #[trigger] res.1.texts_tokens()[i] == res.0.encoding_of(corpus@[i]@),
            forall|i: int| 0 <= i < corpus@.len() ==> res.0.decoding_of(#[trigger] res.1.texts_tokens()[i]) == corpus@[i]@,
    {
        match Self::train(corpus, vocab_size, min_frequency, low_memory) {
            Some(r) => r,
            None => vstd::pervasive::unreached(),
        }
    }

    /// Training as [`BPETokenizer::from_corpus`] describes, with the sizes of
    /// the array of counts checked as it grows; `None` exactly when, with no
    /// vocabulary size in the array mode, that array would outgrow a `usize`.
    fn train(corpus: &Vec<String>, vocab_size: usize, min_frequency: usize, low_memory: bool) -> (res: Option<(Self, CorpusTokenization)>)
        requires
            corpus_text(string_views(corpus@)).len() >= 1,
            vocab_size == 0 || vocab_size >= corpus_chars(string_views(corpus@)).len(),
            min_frequency >= 1,
            corpus_text(string_views(corpus@)).len() <= usize::MAX,
            !low_memory ==> vocab_size * vocab_size <= usize::MAX,
        ensures
            res is None <==> !low_memory && vocab_size == 0 && !count_table_fits(string_views(corpus@), min_frequency as nat),
            res matches Some(r) ==> r.0.trained_on(string_views(corpus@), vocab_size as nat, min_frequency as nat, low_memory),
            res matches Some(r) ==> r.1.texts_tokens() == apply_rules_all(r.0.merge_rules(), initial_encodings(string_views(corpus@))),
            res matches Some(r) ==> r.1.texts_tokens().len() == corpus@.len(),
            res matches Some(r) ==> forall|i: int| 0 <= i < corpus@.len() ==> #[trigger] r.1.texts_tokens()[i] == r.0.encoding_of(corpus@[i]@),
            res matches Some(r) ==> forall|i: int| 0 <= i < corpus@.len() ==> r.0.decoding_of(#[trigger] r.1.texts_tokens()[i]) == corpus@[i]@,
    {
        let ghost cv = string_views(corpus@);
        let ghost len = corpus_text(cv).len();
        let sorted = corpus_alphabet(corpus);
        let (mut vocab, encoding_table) = alphabet_tokens(&sorted);
        let mut encodings = encode_chars(corpus, &sorted, &encoding_table);
        let ghost init = encodings_view(encodings@);
        let d = sorted.len();
        proof {
            assert(sorted@.no_duplicates()) by {
                assert forall|x: int, y: int| 0 <= x < sorted@.len() && 0 <= y < sorted@.len() && x != y implies sorted@[x] != sorted@[y] by {
                    if x < y { assert((sorted@[x] as u32) < (sorted@[y] as u32)); } else { assert((sorted@[y] as u32) < (sorted@[x] as u32)); }
                }
            }
            sorted@.unique_seq_to_set();
            corpus_text(cv).lemma_cardinality_of_set();
            assert(corpus_text(cv).to_set().contains(corpus_text(cv)[0]));
            lemma_total_len_matches(init, cv);
        }
        assert(1 <= d <= len);

        let mut rules: Vec<Rule> = Vec::new();
        let mut token = vocab.len();
        let ghost last: nat = (d + train_rules(init, d as nat, vocab_size as nat, min_frequency as nat).len()) as nat;
        let mut counts_len: usize = 0;
        if !low_memory {
            if vocab_size == 0 {
                proof {
                    lemma_count_table_len_grows(d as nat, d as nat, last);
                    assert(count_table_len(d as nat, d as nat) == 4 * d * d);
                    assert(d * d <= 4 * d * d) by (nonlinear_arith);
                }
                let square = match token.checked_mul(token) {
                    Some(sq) => sq,
                    None => return None,
                };
                assert(square * 4 == 4 * d * d) by (nonlinear_arith)
                    requires square == d * d;
                counts_len = match square.checked_mul(4) {
                    Some(n) => n,
                    None => return None,
                };
            } else {
                counts_len = vocab_size * vocab_size;
            }
        }
        let mut counts: Vec<usize> = vec![0; counts_len];
        assert(tokens_below(init, token as nat)) by {
            assert(corpus_chars(cv) == sorted@.to_set());
            assert forall|i: int, j: int| 0 <= i < init.len() && 0 <= j < init[i].len() implies (#[trigger] init[i][j]).0 < token by {
                let c = cv[i][j];
                lemma_corpus_text_member(cv, i);
                assert(cv[i].contains(c));
                assert(sorted@.to_set().contains(c));
                lemma_char_table(encoding_table@, sorted@, c);
                assert(init[i][j] == initial_token(cv, c));
            }
        }
        assert(apply_rules_all(rules@, init) == init);
        assert(rules@ + train_rules(init, token as nat, vocab_size as nat, min_frequency as nat) =~= train_rules(init, d as nat, vocab_size as nat, min_frequency as nat));

        while vocab_size == 0 || token < vocab_size
            invariant_except_break
                !low_memory && vocab_size == 0 ==> counts@.len() == count_table_len(d as nat, (token - 1) as nat),
            invariant
                cv == string_views(corpus@),
                len == corpus_text(cv).len(),
                init == initial_encodings(cv),
                d == corpus_chars(cv).len(),
                d == sorted@.len(),
                1 <= d <= len,
                min_frequency >= 1,
                len <= usize::MAX,
                last == d + train_rules(init, d as nat, vocab_size as nat, min_frequency as nat).len(),
                !low_memory ==> vocab_size * vocab_size <= usize::MAX,
                vocab_size == 0 || vocab_size >= d,
                token == d + rules@.len(),
                vocab@.len() == token,
                encodings_view(encodings@) == apply_rules_all(rules@, init),
                tokens_below(encodings_view(encodings@), token as nat),
                total_len(encodings_view(encodings@)) + rules@.len() <= len,
                is_max_prefix(init, d as nat, rules@, vocab_size as nat, min_frequency as nat),
                !low_memory ==> rules@ + train_rules(encodings_view(encodings@), token as nat, vocab_size as nat, min_frequency as nat) == train_rules(init, d as nat, vocab_size as nat, min_frequency as nat),
                !low_memory ==> token <= last,
                !low_memory && vocab_size > 0 ==> counts@.len() == vocab_size * vocab_size,
                !low_memory ==> forall|k: int| token * token <= k < counts@.len() ==> #[trigger] counts@[k] == 0,
                forall|k: int| 0 <= k < d ==> #[trigger] vocab@[k]@ == seq![sorted@[k]],
                forall|r: int| 0 <= r < rules@.len() ==> {
                    let rule = #[trigger] rules@[r];
                    &&& rule.replacement == Token((d + r) as usize)
                    &&& rule.a.0 < d + r
                    &&& rule.b.0 < d + r
                    &&& vocab@[d + r]@ == vocab@[rule.a.0 as int]@ + vocab@[rule.b.0 as int]@
                },
            ensures
                stops(encodings_view(encodings@), token as nat, vocab_size as nat, min_frequency as nat),
                !low_memory && vocab_size == 0 ==> counts@.len() == count_table_len(d as nat, token as nat),
                token == d + rules@.len(),
                vocab@.len() == token,
                encodings_view(encodings@) == apply_rules_all(rules@, init),
                is_max_prefix(init, d as nat, rules@, vocab_size as nat, min_frequency as nat),
                !low_memory ==> rules@ + train_rules(encodings_view(encodings@), token as nat, vocab_size as nat, min_frequency as nat) == train_rules(init, d as nat, vocab_size as nat, min_frequency as nat),
                forall|k: int| 0 <= k < d ==> #[trigger] vocab@[k]@ == seq![sorted@[k]],
                forall|r: int| 0 <= r < rules@.len() ==> {
                    let rule = #[trigger] rules@[r];
                    &&& rule.replacement == Token((d + r) as usize)
                    &&& rule.a.0 < d + r
                    &&& rule.b.0 < d + r
                    &&& vocab@[d + r]@ == vocab@[rule.a.0 as int]@ + vocab@[rule.b.0 as int]@
                },
            decreases total_len(encodings_view(encodings@)),
        {
            let ghost cur = encodings_view(encodings@);
            let ghost t0 = token;
            if !low_memory {
                if vocab_size > 0 {
                    assert(token * token < vocab_size * vocab_size) by (nonlinear_arith)
                        requires token < vocab_size;
                } else {
                    proof {
                        lemma_count_table_len_square(d as nat, token as nat);
                        lemma_count_table_len_grows(d as nat, token as nat, last);
                        if token == d {
                            assert(d * d <= 4 * d * d) by (nonlinear_arith);
                        }
                    }
                }
                let square = match token.checked_mul(token) {
                    Some(sq) => sq,
                    None => return None,
                };
                if square > counts.len() {
                    let grown = match counts.len().checked_mul(4) {
                        Some(g) => g,
                        None => return None,
                    };
                    counts = vec![0; grown];
                }
                assert(vocab_size == 0 ==> counts@.len() == count_table_len(d as nat, token as nat));
                assert(token * token <= counts@.len());
            }
            let ghost counts_before = counts@;
            if !low_memory {
                assert forall|k: int| t0 * t0 <= k < counts_before.len() implies #[trigger] counts_before[k] == 0 by {}
            }
            if low_memory {
                let found = any_pair(&encodings);
                if !found {
                    proof {
                        lemma_no_pair_best_count(cur, token as nat);
                    }
                    break;
                }
            }
            let ((a, b), n) = if low_memory {
                Self::most_common_pair_low_memory(&encodings)
            } else {
                Self::most_common_pair(&encodings, token, &mut counts)
            };
            proof {
                lemma_best_index(cur, token as nat);
                if low_memory {
                    let i = lemma_corpus_count_occurs(cur, a, b);
                    let p = choose|p: int| #![trigger cur[i][p]] 0 <= p < cur[i].len() - 1 && cur[i][p] == a && cur[i][p + 1] == b;
                    assert(cur[i][p].0 < token && cur[i][p + 1].0 < token);
                    assert(n as int == best_count(cur, token as nat));
                } else {
                    let i = choose|i: int| is_last_max(as_ints(counts@), i) && ((a, b), n) == ((pair_first(i, token as nat), pair_second(i, token as nat)), counts@[i]);
                    let t = count_table(cur, token as nat);
                    let bi = best_index(cur, token as nat);
                    assert(as_ints(counts@)[bi] == t[bi]);
                    if n > 0 {
                        if i >= token * token {
                            assert(counts@[i] == counts_before[i]);
                        }
                        assert forall|j: int| 0 <= j < t.len() implies #[trigger] t[j] <= t[i] by {
                            assert(as_ints(counts@)[j] == t[j]);
                        }
                        assert forall|j: int| i < j < t.len() implies #[trigger] t[j] < t[i] by {
                            assert(as_ints(counts@)[j] == t[j]);
                        }
                        lemma_last_max_unique(t, i, bi);
                    }
                    assert(t[bi] <= n);
                }
            }
            if n < min_frequency {
                break;
            }
            let rule = Rule::new(a, b, Token(token));
            proof {
                if !low_memory {
                    assert(rule == best_rule(cur, token as nat));
                    assert(train_rules(cur, token as nat, vocab_size as nat, min_frequency as nat) == seq![rule] + train_rules(apply_rule_all(rule, cur), (token + 1) as nat, vocab_size as nat, min_frequency as nat));
                }
                assert(is_max_step(cur, token as nat, rule));
                lemma_max_prefix_push(init, d as nat, rules@, rule, vocab_size as nat, min_frequency as nat);
                lemma_apply_rules_all_push(rules@, rule, init);
                lemma_apply_total_len(rule, cur);
                lemma_tokens_below_step(cur, token as nat, rule);
            }
            let ghost rules_before = rules@;
            apply_rule_to_each(&rule, &mut encodings);
            let combined = concat_strings(&vocab[a.0], &vocab[b.0]);
            vocab.push(combined);
            rules.push(rule);
            token = vocab.len();
            proof {
                if !low_memory {
                    assert(t0 * t0 <= token * token) by (nonlinear_arith)
                        requires token == t0 + 1, t0 >= 1;
                    assert forall|k: int| token * token <= k < counts@.len() implies #[trigger] counts@[k] == 0 by {
                        assert(counts@[k] == counts_before[k]);
                    }
                }
                if !low_memory {
                    assert(rules@ + train_rules(encodings_view(encodings@), token as nat, vocab_size as nat, min_frequency as nat) =~= rules_before + (seq![rule] + train_rules(apply_rule_all(rule, cur), token as nat, vocab_size as nat, min_frequency as nat)));
                }
            }
        }
        let counts_size = counts.len();
        let ghost final_encs = encodings_view(encodings@);
        let mut tokenizations: Vec<Tokenization> = Vec::new();
        let mut i: usize = 0;
        while i < encodings.len()
            invariant
                i <= encodings@.len(),
                encodings@.len() == final_encs.len(),
                forall|k: int| i <= k < encodings@.len() ==> #[trigger] encodings@[k]@ == final_encs[k],
                tokenizations@.len() == i,
                forall|k: int| 0 <= k < i ==> #[trigger] tokenizations@[k].tokens_view() == final_encs[k],
            decreases encodings@.len() - i,
        {
            let mut e: Vec<Token> = Vec::new();
            encodings.set_and_swap(i, &mut e);
            tokenizations.push(Tokenization::from_vec(e));
            i += 1;
        }
        let encoded = CorpusTokenization::new(tokenizations);
        assert(encoded.texts_tokens() =~= final_encs);
        let tokenizer = BPETokenizer::new(vocab, rules, encoding_table);
        proof {
            let tok = tokenizer;
            assert(corpus_chars(cv) == sorted@.to_set());
            assert forall|c: char| #[trigger] tok.knows_char(c) implies
                tok.has_token(tok.char_token(c)) && tok.piece()(tok.char_token(c)) == seq![c] by {
                lemma_char_table(encoding_table@, sorted@, c);
                let k = sorted@.index_of(c);
                assert(vocab@[k]@ == seq![sorted@[k]]);
            }
            assert forall|r: int| 0 <= r < tok.merge_rules().len() implies {
                let rule = #[trigger] tok.merge_rules()[r];
                &&& tok.has_token(rule.a)
                &&& tok.has_token(rule.b)
                &&& tok.has_token(rule.replacement)
                &&& tok.piece()(rule.replacement) == tok.piece()(rule.a) + tok.piece()(rule.b)
            } by {
                let rule = rules@[r];
                assert(rule.replacement.0 == (d + r) as usize);
            }
            assert(tok.well_formed());
            assert forall|c: char| #[trigger] tok.knows_char(c) <==> corpus_chars(cv).contains(c) by {
                lemma_char_table(encoding_table@, sorted@, c);
            }
            assert forall|c: char| corpus_chars(cv).contains(c) implies #[trigger] tok.char_token(c) == initial_token(cv, c) by {
                lemma_char_table(encoding_table@, sorted@, c);
            }
            let image = corpus_chars(cv).map(|c: char| tok.char_token(c).0);
            assert forall|k: usize| k < d implies #[trigger] image.contains(k) by {
                let c = sorted@[k as int];
                lemma_increasing_index(sorted@, k as int, c);
                lemma_char_table(encoding_table@, sorted@, c);
                assert(sorted@.to_set().contains(c));
            }
            assert forall|k: usize| #[trigger] image.contains(k) implies k < d by {
                let c = choose|c: char| corpus_chars(cv).contains(c) && tok.char_token(c).0 == k;
                lemma_char_table(encoding_table@, sorted@, c);
            }
            assert(image =~= Set::new(|k: usize| k < d));
            lemma_char_table_dom(encoding_table@, sorted@);
            assert(apply_rules_all(rules@, init) == final_encs);
            if !low_memory {
                assert(train_rules(final_encs, token as nat, vocab_size as nat, min_frequency as nat) =~= Seq::<Rule>::empty());
                assert(rules@ + Seq::<Rule>::empty() =~= rules@);
                assert(token == last);
                assert(vocab_size == 0 ==> count_table_len(d as nat, last) == counts_size);
            }
            lemma_apply_rules_all_index(rules@, init);
            assert forall|i: int| 0 <= i < corpus@.len() implies #[trigger] encoded.texts_tokens()[i] == tok.encoding_of(corpus@[i]@)
                && tok.decoding_of(encoded.texts_tokens()[i]) == corpus@[i]@ by {
                let text = cv[i];
                assert(text == corpus@[i]@);
                lemma_corpus_text_member(cv, i);
                assert forall|q: int| 0 <= q < text.len() implies tok.knows_char(#[trigger] text[q]) by {
                    assert(text.contains(text[q]));
                }
                assert(init[i] =~= text.map_values(|c: char| tok.char_token(c))) by {
                    assert forall|q: int| 0 <= q < text.len() implies init[i][q] == tok.char_token(text[q]) by {
                        assert(text.contains(text[q]));
                    }
                }
                lemma_decode_encode(&tok, text);
            }
        }
        Some((tokenizer, encoded))
    }
}

/// Law: decoding the encoding of a text gives the text back, for every
/// well-formed tokenizer and every text over its characters; every token of
/// the encoding can be decoded; and the encoding has no more tokens than the
/// text has characters.
pub proof fn lemma_decode_encode(tok: &BPETokenizer, text: Seq<char>)
    requires
        tok.well_formed(),
        forall|i: int| 0 <= i < text.len() ==> tok.knows_char(#[trigger] text[i]),
    ensures
        tok.decoding_of(tok.encoding_of(text)) == text,
        forall|i: int| 0 <= i < tok.encoding_of(text).len() ==> tok.has_token(#[trigger] tok.encoding_of(text)[i]),
        tok.encoding_of(text).len() <= text.len(),
{
    let char_token = |c: char| tok.char_token(c);
    let valid = |t: Token| tok.has_token(t);
    assert forall|i: int| 0 <= i < text.len() implies valid(char_token(#[trigger] text[i])) && tok.piece()(char_token(text[i])) == seq![text[i]] by {
        assert(tok.knows_char(text[i]));
    }
    assert forall|i: int| 0 <= i < tok.merge_rules().len() implies {
        let r = #[trigger] tok.merge_rules()[i];
        &&& valid(r.replacement)
        &&& tok.piece()(r.replacement) == tok.piece()(r.a) + tok.piece()(r.b)
    } by {}
    lemma_encoding_spells_text(tok.piece(), valid, char_token, tok.merge_rules(), text);
    assert(text.map_values(char_token) =~= text.map_values(|c: char| tok.char_token(c)));
}

/// Token `k` of `t1` spells what token `k` of `t2` spells, when both were
/// trained on `corpus`, `t2` in the array mode, and the rules of `t1` are a
/// prefix of those of `t2`.
proof fn lemma_vocab_text_agrees(
    t1: &BPETokenizer,
    t2: &BPETokenizer,
    corpus: Seq<Seq<char>>,
    v1: nat,
    m1: nat,
    l1: bool,
    v2: nat,
    m2: nat,
    k: int,
)
    requires
        t1.trained_on(corpus, v1, m1, l1),
        t2.trained_on(corpus, v2, m2, false),
        t1.merge_rules().is_prefix_of(t2.merge_rules()),
        0 <= k < t1.vocab_texts().len(),
    ensures
        k < t2.vocab_texts().len(),
        t1.vocab_texts()[k] == t2.vocab_texts()[k],
    decreases k,
{
    let chars = corpus_chars(corpus);
    let d = chars.len();
    let r1 = t1.merge_rules();
    let r2 = t2.merge_rules();
    if k < d {
        let image = chars.map(|c: char| t1.char_token(c).0);
        assert(image.contains(k as usize));
        let c = choose|c: char| chars.contains(c) && (k as usize) == t1.char_token(c).0;
        assert(t1.knows_char(c));
        assert(t2.knows_char(c));
        assert(t1.char_token(c) == t2.char_token(c));
    } else {
        let r = k - d;
        lemma_train_rules_shape(initial_encodings(corpus), d, v2, m2);
        assert(r1[r] == r2.subrange(0, r1.len() as int)[r]);
        let rule = r2[r];
        assert(rule.replacement == Token((d + r) as usize));
        assert(t1.has_token(r1[r].replacement));
        assert(t1.has_token(r1[r].a) && t1.has_token(r1[r].b));
        lemma_vocab_text_agrees(t1, t2, corpus, v1, m1, l1, v2, m2, rule.a.0 as int);
        lemma_vocab_text_agrees(t1, t2, corpus, v1, m1, l1, v2, m2, rule.b.0 as int);
        assert(t2.has_token(r2[r].replacement));
        assert(t1.piece()(rule.replacement) == t1.piece()(rule.a) + t1.piece()(rule.b));
        assert(t2.piece()(rule.replacement) == t2.piece()(rule.a) + t2.piece()(rule.b));
    }
}

/// Two tokenizers trained on `corpus`, the second in the array mode and with
/// the rules of the first a prefix of its own, agree on the character table,
/// and the token texts of the first are the first token texts of the second.
proof fn lemma_tables_agree(t1: &BPETokenizer, t2: &BPETokenizer, corpus: Seq<Seq<char>>, v1: nat, m1: nat, l1: bool, v2: nat, m2: nat)
    requires
        t1.trained_on(corpus, v1, m1, l1),
        t2.trained_on(corpus, v2, m2, false),
        t1.merge_rules().is_prefix_of(t2.merge_rules()),
    ensures
        t1.char_tokens() == t2.char_tokens(),
        t1.vocab_texts().is_prefix_of(t2.vocab_texts()),
{
    let chars = corpus_chars(corpus);
    assert forall|key: u32| #[trigger] t1.char_tokens().contains_key(key) implies t1.char_tokens()[key] == t2.char_tokens()[key] by {
        assert(t1.char_tokens().dom().contains(key));
        let c = choose|c: char| chars.contains(c) && key == c as u32;
        assert(t1.char_token(c) == initial_token(corpus, c));
        assert(t2.char_token(c) == initial_token(corpus, c));
    }
    assert(t1.char_tokens().dom() =~= t2.char_tokens().dom());
    assert(t1.char_tokens() =~= t2.char_tokens());
    let n1 = t1.vocab_texts().len();
    if n1 > 0 {
        lemma_vocab_text_agrees(t1, t2, corpus, v1, m1, l1, v2, m2, (n1 - 1) as int);
    }
    assert forall|k: int| 0 <= k < n1 implies t1.vocab_texts()[k] == t2.vocab_texts()[k] by {
        lemma_vocab_text_agrees(t1, t2, corpus, v1, m1, l1, v2, m2, k);
    }
    assert(t1.vocab_texts() =~= t2.vocab_texts().subrange(0, n1 as int));
}

/// Law, on the results of [`BPETokenizer::from_corpus`]: training twice in the array mode on the same corpus with the same
/// settings gives the same tokenizer: the same token texts, rules and
/// character table.
pub proof fn lemma_training_deterministic(t1: &BPETokenizer, t2: &BPETokenizer, corpus: Seq<Seq<char>>, vocab_size: nat, min_frequency: nat)
    requires
        t1.trained_on(corpus, vocab_size, min_frequency, false),
        t2.trained_on(corpus, vocab_size, min_frequency, false),
    ensures
        t1.vocab_texts() == t2.vocab_texts(),
        t1.merge_rules() == t2.merge_rules(),
        t1.char_tokens() == t2.char_tokens(),
{
    assert(t1.merge_rules() =~= t2.merge_rules().subrange(0, t1.merge_rules().len() as int));
    lemma_tables_agree(t1, t2, corpus, vocab_size, min_frequency, false, vocab_size, min_frequency);
    assert(t1.vocab_texts() =~= t2.vocab_texts());
}

/// Law, on the results of [`BPETokenizer::from_corpus`]: with a vocabulary size `small` that is set and not above `large`
/// (0: no limit), array-mode training learns a prefix of the rules and of the
/// token texts that it learns with `large`, and the same character table.
pub proof fn lemma_vocab_size_prefix(t1: &BPETokenizer, t2: &BPETokenizer, corpus: Seq<Seq<char>>, small: nat, large: nat, min_frequency: nat)
    requires
        t1.trained_on(corpus, small, min_frequency, false),
        t2.trained_on(corpus, large, min_frequency, false),
        small > 0,
        large == 0 || small <= large,
    ensures
        t1.merge_rules().is_prefix_of(t2.merge_rules()),
        t1.vocab_texts().is_prefix_of(t2.vocab_texts()),
        t1.char_tokens() == t2.char_tokens(),
{
    lemma_train_rules_vocab_prefix(initial_encodings(corpus), corpus_chars(corpus).len(), small, large, min_frequency);
    lemma_tables_agree(t1, t2, corpus, small, min_frequency, false, large, min_frequency);
}

/// Law, on the results of [`BPETokenizer::from_corpus`]: with a minimum frequency `high` not below `low`, array-mode training
/// learns a prefix of the rules and of the token texts that it learns with
/// `low`, and the same character table.
pub proof fn lemma_min_frequency_prefix(t1: &BPETokenizer, t2: &BPETokenizer, corpus: Seq<Seq<char>>, vocab_size: nat, low: nat, high: nat)
    requires
        t1.trained_on(corpus, vocab_size, high, false),
        t2.trained_on(corpus, vocab_size, low, false),
        low <= high,
    ensures
        t1.merge_rules().is_prefix_of(t2.merge_rules()),
        t1.vocab_texts().is_prefix_of(t2.vocab_texts()),
        t1.char_tokens() == t2.char_tokens(),
{
    lemma_train_rules_frequency_prefix(initial_encodings(corpus), corpus_chars(corpus).len(), vocab_size, low, high);
    lemma_tables_agree(t1, t2, corpus, vocab_size, high, false, vocab_size, low);
}

/// Law, on the results of [`BPETokenizer::from_corpus`]: when the most common pair is unique at every step of training, the
/// low-memory mode learns the same tokenizer as the array mode.
pub proof fn lemma_low_memory_agrees(t1: &BPETokenizer, t2: &BPETokenizer, corpus: Seq<Seq<char>>, vocab_size: nat, min_frequency: nat)
    requires
        t1.trained_on(corpus, vocab_size, min_frequency, true),
        t2.trained_on(corpus, vocab_size, min_frequency, false),
        min_frequency > 0,
        unique_maxima(initial_encodings(corpus), corpus_chars(corpus).len(), vocab_size, min_frequency),
    ensures
        t1.vocab_texts() == t2.vocab_texts(),
        t1.merge_rules() == t2.merge_rules(),
        t1.char_tokens() == t2.char_tokens(),
{
    lemma_max_run_unique(initial_encodings(corpus), corpus_chars(corpus).len(), t1.merge_rules(), vocab_size, min_frequency);
    assert(t1.merge_rules() =~= t2.merge_rules().subrange(0, t1.merge_rules().len() as int));
    lemma_tables_agree(t1, t2, corpus, vocab_size, min_frequency, true, vocab_size, min_frequency);
    assert(t1.vocab_texts() =~= t2.vocab_texts());
}

/// Law: a trained tokenizer's character table has one entry per distinct
/// character of the corpus, so [`BPETokenizer::num_chars`] counts them.
pub proof fn lemma_char_count(tok: &BPETokenizer, corpus: Seq<Seq<char>>, vocab_size: nat, min_frequency: nat, low_memory: bool)
    requires
        tok.trained_on(corpus, vocab_size, min_frequency, low_memory),
    ensures
        tok.char_tokens().dom().len() == corpus_chars(corpus).len(),
{
    let chars = corpus_chars(corpus);
    let f = |c: char| c as u32;
    assert(vstd::relations::injective_on(f, chars)) by {
        assert forall|a: char, b: char| chars.contains(a) && chars.contains(b) && #[trigger] f(a) == #[trigger] f(b) implies a == b by {
            if a != b {
                lemma_char_code_injective(a, b);
            }
        }
    }
    vstd::set_lib::lemma_map_size(chars, tok.char_tokens().dom(), f);
}

/// Law: the rules of a trained tokenizer are fresh: each replaces a pair by
/// a token new at that point, used by neither its own pair nor an earlier
/// rule's pair. So [`BPETokenizer::encode`] applies every rule: the pair of
/// no rule is left in an encoding, nor in the encoded corpus.
pub proof fn lemma_trained_rules_fresh(tok: &BPETokenizer, corpus: Seq<Seq<char>>, vocab_size: nat, min_frequency: nat, low_memory: bool)
    requires
        tok.trained_on(corpus, vocab_size, min_frequency, low_memory),
    ensures
        fresh_rules(tok.merge_rules()),
        forall|t: Seq<char>, k: int| 0 <= k < tok.merge_rules().len()
            ==> !pair_occurs(#[trigger] tok.encoding_of(t), (#[trigger] tok.merge_rules()[k]).a, tok.merge_rules()[k].b),
{
    let d = corpus_chars(corpus).len();
    let init = initial_encodings(corpus);
    if low_memory {
        lemma_max_prefix_shape(init, d, tok.merge_rules(), vocab_size, min_frequency);
    } else {
        lemma_train_rules_shape(init, d, vocab_size, min_frequency);
    }
    lemma_numbered_rules_fresh(tok.merge_rules(), d);
    assert forall|t: Seq<char>, k: int| 0 <= k < tok.merge_rules().len()
        implies !pair_occurs(#[trigger] tok.encoding_of(t), (#[trigger] tok.merge_rules()[k]).a, tok.merge_rules()[k].b) by {
        lemma_apply_rules_leaves_no_pair(tok.merge_rules(), t.map_values(|c: char| tok.char_token(c)));
    }
}

/// Why a corpus cannot be trained on.
#[derive(Debug, Clone, Copy, PartialEq, Eq, Structural)]
pub enum TrainingError {
    /// The corpus has no character.
    EmptyCorpus,
    /// The corpus is too large for the counts of pairs to be kept in memory.
    TooLarge,
    /// A vocabulary size was set below the number of distinct characters.
    VocabSizeBelowAlphabet { vocab_size: usize, alphabet: usize },
    /// The minimum frequency is 0.
    ZeroMinFrequency,
}

/// The sizes known before training fit: the corpus's characters can be
/// counted in a `usize`, and so can the `vocab_size * vocab_size` entries of
/// the array of counts that the array mode allocates for a vocabulary size.
pub open spec fn size_fits(len: nat, vocab_size: nat, low_memory: bool) -> bool {
    &&& len <= usize::MAX
    &&& !low_memory ==> vocab_size * vocab_size <= usize::MAX
}

/// The number of characters of a corpus, when it fits in a `usize`.
fn corpus_char_count(corpus: &Vec<String>) -> (res: Option<usize>)
    ensures
        res is None <==> corpus_text(string_views(corpus@)).len() > usize::MAX,
        res matches Some(n) ==> n == corpus_text(string_views(corpus@)).len(),
{
    let ghost cv = string_views(corpus@);
    let mut total: usize = 0;
    let mut j: usize = 0;
    while j < corpus.len()
        invariant
            cv == string_views(corpus@),
            j <= corpus.len(),
            total == corpus_text(cv.take(j as int)).len(),
        decreases corpus.len() - j,
    {
        let n = chars_of(&corpus[j]).len();
        proof {
            assert(cv.take(j + 1) =~= cv.take(j as int).push(cv[j as int]));
            lemma_corpus_text_push(cv.take(j as int), cv[j as int]);
        }
        match total.checked_add(n) {
            Some(t) => total = t,
            None => {
                proof {
                    lemma_corpus_text_prefix_len(cv, j + 1);
                }
                return None;
            },
        }
        j += 1;
    }
    assert(cv.take(j as int) =~= cv);
    Some(total)
}

/// A corpus has at least as many characters as any of its prefixes.
proof fn lemma_corpus_text_prefix_len(cv: Seq<Seq<char>>, j: int)
    requires
        0 <= j <= cv.len(),
    ensures
        corpus_text(cv.take(j)).len() <= corpus_text(cv).len(),
    decreases cv.len(),
{
    if j < cv.len() {
        assert(cv.drop_last().take(j) =~= cv.take(j));
        lemma_corpus_text_prefix_len(cv.drop_last(), j);
    } else {
        assert(cv.take(j) =~= cv);
    }
}

impl BPETokenizer {
    /// Trains a tokenizer on `corpus` as [`BPETokenizer::from_corpus`] does,
    /// after checking what that function requires; the error says which
    /// check failed.
    pub fn try_from_corpus(corpus: &Vec<String>, vocab_size: usize, min_frequency: usize, low_memory: bool) -> (res: Result<(Self, CorpusTokenization), TrainingError>)
        ensures
            res == Err::<(Self, CorpusTokenization), TrainingError>(TrainingError::EmptyCorpus) <==> corpus_text(string_views(corpus@)).len() == 0,
            res == Err::<(Self, CorpusTokenization), TrainingError>(TrainingError::TooLarge) <==> corpus_text(string_views(corpus@)).len() > 0 && {
                ||| !size_fits(corpus_text(string_views(corpus@)).len(), vocab_size as nat, low_memory)
                ||| {
                    &&& !(0 < vocab_size < corpus_chars(string_views(corpus@)).len())
                    &&& min_frequency != 0
                    &&& !low_memory && vocab_size == 0
                    &&& !count_table_fits(string_views(corpus@), min_frequency as nat)
                }
            },
            res matches Err(TrainingError::VocabSizeBelowAlphabet { vocab_size: v, alphabet: a }) <==> {
                &&& corpus_text(string_views(corpus@)).len() > 0
                &&& size_fits(corpus_text(string_views(corpus@)).len(), vocab_size as nat, low_memory)
                &&& 0 < vocab_size < corpus_chars(string_views(corpus@)).len()
            },
            res matches Err(TrainingError::VocabSizeBelowAlphabet { vocab_size: v, alphabet: a }) ==>
                v == vocab_size && a == corpus_chars(string_views(corpus@)).len(),
            res == Err::<(Self, CorpusTokenization), TrainingError>(TrainingError::ZeroMinFrequency) <==> {
                &&& corpus_text(string_views(corpus@)).len() > 0
                &&& size_fits(corpus_text(string_views(corpus@)).len(), vocab_size as nat, low_memory)
                &&& !(0 < vocab_size < corpus_chars(string_views(corpus@)).len())
                &&& min_frequency == 0
            },
            res matches Ok(r) ==> r.0.trained_on(string_views(corpus@), vocab_size as nat, min_frequency as nat, low_memory),
            res matches Ok(r) ==> r.1.texts_tokens() == apply_rules_all(r.0.merge_rules(), initial_encodings(string_views(corpus@))),
            res matches Ok(r) ==> forall|i: int| 0 <= i < corpus@.len() ==> r.0.decoding_of(#[trigger] r.1.texts_tokens()[i]) == corpus@[i]@,
    {
        let ghost cv = string_views(corpus@);
        let len = match corpus_char_count(corpus) {
            Some(n) => n,
            None => return Err(TrainingError::TooLarge),
        };
        if len == 0 {
            return Err(TrainingError::EmptyCorpus);
        }
        let fits = low_memory || vocab_size.checked_mul(vocab_size).is_some();
        if !fits {
            return Err(TrainingError::TooLarge);
        }
        let sorted = corpus_alphabet(corpus);
        let alphabet = sorted.len();
        proof {
            lemma_increasing_set_len(sorted@);
        }
        if 0 < vocab_size && vocab_size < alphabet {
            return Err(TrainingError::VocabSizeBelowAlphabet { vocab_size, alphabet });
        }
        if min_frequency == 0 {
            return Err(TrainingError::ZeroMinFrequency);
        }
        match Self::train(corpus, vocab_size, min_frequency, low_memory) {
            Some(r) => Ok(r),
            None => Err(TrainingError::TooLarge),
        }
    }
}

} // verus!
