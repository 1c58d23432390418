//! A tokenizer trained on one text: its alphabet, merge rules and the text
//! of every token.

use vstd::prelude::*;
use std::collections::HashMap;
use itertools::Itertools;
use crate::merge::{Token, Rule, pair_occurs, concat_pieces, into_boxed_tokens, lemma_merge_nonempty, lemma_merge_shortens};
use crate::counting::{best_first, best_second, best_count, count_table, pair_count, corpus_pair_count, pair_first, pair_second, tokens_below, as_ints, is_last_max, lemma_best_index, lemma_last_max_unique, lemma_pair_index, lemma_index_of_pair, lemma_pair_count_bound, lemma_pair_count_step, lemma_pair_count_occurs};
use crate::training::{continues, apply_rules, apply_rule_all, train_rules, best_rule, stops, initial_token, initial_encodings, initial_encoding, lemma_tokens_below_step, lemma_encoding_spells_text, lemma_apply_rules_len, lemma_train_rules_shape, lemma_train_rules_vocab_prefix, fresh_rules, lemma_apply_rules_leaves_no_pair, lemma_numbered_rules_fresh};
use crate::text::{chars_of, join_strings, string_views, lemma_joined_pieces, corpus_text, corpus_chars, strictly_increasing, distinct_sorted, char_to_string, concat_strings, lemma_rank_is_position, lemma_char_code_injective, is_char_table, lemma_char_table_dom};

verus! {

broadcast use vstd::std_specs::hash::group_hash_axioms;

/// A byte-pair-encoding tokenizer.
pub struct BPETokenizer {
    /// The token of each character, keyed by the character's code point.
    vocab: HashMap<u32, Token>,
    /// The text of each token, keyed by the token's index.
    token_map: HashMap<usize, String>,
    /// The merge rules, in the order in which they are applied.
    rules: Vec<Rule>,
}

/// A table of `t * t` pair counts can be indexed by a `usize`.
pub open spec fn square_fits(t: nat) -> bool {
    t * t <= usize::MAX
}

/// Each table of pair counts that training on `text` allocates fits: one of
/// `t * t` entries at each token `t` from the alphabet's size to the token
/// where training stops, while the vocabulary size (0: none) allows `t`.
pub open spec fn pair_tables_fit(text: Seq<char>, vocab_size: nat) -> bool {
    let corpus = seq![text];
    let d = corpus_chars(corpus).len();
    let last = d + train_rules(initial_encodings(corpus), d, vocab_size, 2).len();
    forall|t: nat| d <= t <= last && continues(vocab_size, t) ==> #[trigger] square_fits(t)
}

/// The position of the last maximum of `v`, `None` when `v` is empty
/// (`Itertools::position_max`).
#[verifier::external_body]
fn position_max(v: &Vec<usize>) -> (res: Option<usize>)
    ensures
        res is None <==> v@.len() == 0,
        res matches Some(k) ==> is_last_max(as_ints(v@), k as int),
{
    v.iter().position_max()
}

impl BPETokenizer {
    /// The token of each character, keyed by code point.
    pub closed spec fn char_tokens(&self) -> Map<u32, Token> {
        self.vocab@
    }

    /// The text of each token, keyed by token index.
    pub closed spec fn texts(&self) -> Map<usize, String> {
        self.token_map@
    }

    /// The merge rules, first to last.
    pub closed spec fn merge_rules(&self) -> Seq<Rule> {
        self.rules@
    }

    pub open spec fn knows_char(&self, c: char) -> bool {
        self.char_tokens().contains_key(c as u32)
    }

    pub open spec fn char_token(&self, c: char) -> Token {
        self.char_tokens()[c as u32]
    }

    pub open spec fn has_token(&self, t: Token) -> bool {
        self.texts().contains_key(t.0)
    }

    pub open spec fn token_text(&self, t: Token) -> Seq<char> {
        self.texts()[t.0]@
    }

    /// The text of each token, as a function.
    pub open spec fn piece(&self) -> spec_fn(Token) -> Seq<char> {
        |t: Token| self.token_text(t)
    }

    /// The tokens of `text`: its characters' tokens, merged by every rule in turn.
    pub open spec fn encoding_of(&self, text: Seq<char>) -> Seq<Token> {
        apply_rules(self.merge_rules(), text.map_values(|c: char| self.char_token(c)))
    }

    /// The text spelled by `toks`.
    pub open spec fn decoding_of(&self, toks: Seq<Token>) -> Seq<char> {
        concat_pieces(self.piece(), toks)
    }

    /// Every character's token spells that character, and every rule's
    /// replacement spells its pair.
    pub open spec fn well_formed(&self) -> bool {
        &&& forall|c: char| #[trigger] self.knows_char(c) ==>
            self.has_token(self.char_token(c)) && self.token_text(self.char_token(c)) == seq![c]
        &&& forall|i: int| 0 <= i < self.merge_rules().len() ==> {
            let r = #[trigger] self.merge_rules()[i];
            &&& self.has_token(r.a)
            &&& self.has_token(r.b)
            &&& self.has_token(r.replacement)
            &&& self.token_text(r.replacement) == self.token_text(r.a) + self.token_text(r.b)
        }
    }

    pub fn new(vocab: HashMap<u32, Token>, token_map: HashMap<usize, String>, rules: Vec<Rule>) -> (tok: Self)
        ensures
            tok.char_tokens() == vocab@,
            tok.texts() == token_map@,
            tok.merge_rules() == rules@,
    {
        BPETokenizer { vocab, token_map, rules }
    }

    /// The number of tokens that have a text.
    pub fn num_tokens(&self) -> (n: usize)
        ensures
            n == self.texts().len(),
    {
        self.token_map.len()
    }

    /// The tokens of `text`.
    pub fn encode(&self, text: &String) -> (res: Box<[Token]>)
        requires
            forall|i: int| 0 <= i < text@.len() ==> self.knows_char(#[trigger] text@[i]),
        ensures
            res@ == self.encoding_of(text@),
            fresh_rules(self.merge_rules()) ==> forall|k: int| 0 <= k < self.merge_rules().len()
                ==> !pair_occurs(res@, (#[trigger] self.merge_rules()[k]).a, self.merge_rules()[k].b),
    {
        let chars = chars_of(text);
        let mut encoding: Vec<Token> = Vec::new();
        let mut j: usize = 0;
        while j < chars.len()
            invariant
                chars@ == text@,
                j <= chars.len(),
                forall|i: int| 0 <= i < text@.len() ==> self.knows_char(#[trigger] text@[i]),
                encoding@ == chars@.take(j as int).map_values(|c: char| self.char_token(c)),
            decreases chars.len() - j,
        {
            let c = chars[j];
            assert(self.knows_char(text@[j as int]));
            let t = *self.vocab.get(&(c as u32)).unwrap();
            encoding.push(t);
            assert(encoding@ =~= chars@.take(j + 1).map_values(|c: char| self.char_token(c)));
            j += 1;
        }
        assert(chars@.take(j as int) =~= text@);
        let ghost initial = encoding@;
        let mut buffer: Vec<Token> = Vec::new();
        let mut i: usize = 0;
        while i < self.rules.len()
            invariant
                i <= self.rules.len(),
                buffer@.len() == 0,
                encoding@ == apply_rules(self.rules@.take(i as int), initial),
            decreases self.rules.len() - i,
        {
            self.rules[i].apply_into(&encoding, &mut buffer);
            assert(Seq::<Token>::empty() + self.rules@[i as int].merge_all(encoding@) =~= buffer@);
            proof {
                assert(self.rules@.take(i + 1) =~= self.rules@.take(i as int).push(self.rules@[i as int]));
                crate::training::lemma_apply_rules_push(self.rules@.take(i as int), self.rules@[i as int], initial);
            }
            std::mem::swap(&mut encoding, &mut buffer);
            buffer.clear();
            i += 1;
        }
        assert(self.rules@.take(i as int) =~= self.rules@);
        proof {
            if fresh_rules(self.rules@) {
                lemma_apply_rules_leaves_no_pair(self.rules@, initial);
            }
        }
        into_boxed_tokens(encoding)
    }

    /// The text spelled by `tokenization`.
    pub fn decode(&self, tokenization: Box<[Token]>) -> (res: String)
        requires
            forall|i: int| 0 <= i < tokenization@.len() ==> self.has_token(#[trigger] tokenization@[i]),
        ensures
            res@ == self.decoding_of(tokenization@),
    {
        let toks = tokenization.into_vec();
        let mut parts: Vec<String> = Vec::new();
        let mut i: usize = 0;
        while i < toks.len()
            invariant
                i <= toks.len(),
                toks@ == tokenization@,
                forall|k: int| 0 <= k < tokenization@.len() ==> self.has_token(#[trigger] tokenization@[k]),
                string_views(parts@) == toks@.take(i as int).map_values(self.piece()),
            decreases toks.len() - i,
        {
            assert(self.has_token(tokenization@[i as int]));
            let s = self.token_map.get(&toks[i].0).unwrap().clone();
            assert(s@ == self.token_text(toks@[i as int]));
            assert(s@ == self.piece()(toks@[i as int]));
            let ghost before = parts@;
            parts.push(s);
            assert(string_views(parts@) =~= string_views(before).push(s@));
            assert(string_views(parts@) =~= toks@.take(i + 1).map_values(self.piece()));
            i += 1;
        }
        assert(toks@.take(i as int) =~= toks@);
        let res = join_strings(&parts, "");
        proof {
            reveal_strlit("");
            assert(""@ =~= Seq::<char>::empty());
            lemma_joined_pieces(self.piece(), toks@);
        }
        res
    }

    /// The most common pair of adjacent tokens of `tokens`, all below `n`,
    /// and its count; among equally common pairs, the last one by the index
    /// `a + b * n`.
    fn most_common_pair(tokens: &Vec<Token>, n: usize) -> (res: ((Token, Token), usize))
        requires
            tokens.len() >= 1,
            tokens_below(seq![tokens@], n as nat),
            n * n <= usize::MAX,
        ensures
            res.0.0 == best_first(seq![tokens@], n as nat),
            res.0.1 == best_second(seq![tokens@], n as nat),
            res.1 == best_count(seq![tokens@], n as nat),
    {
        let ghost encs = seq![tokens@];
        let ghost s = tokens@;
        let nn = n * n;
        let mut counts: Vec<usize> = vec![0; nn];
        assert(tokens@[0].0 < n) by {
            assert(encs[0][0] == tokens@[0]);
        }
        let last = tokens.len() - 1;
        let mut i: usize = 0;
        assert forall|k: int| 0 <= k < nn implies counts@[k] == pair_count(s.take(1), pair_first(k, n as nat), pair_second(k, n as nat)) by {
            assert(counts@[k] == 0usize);
        }
        while i < last
            invariant
                last == tokens.len() - 1,
                tokens@ == s,
                encs == seq![s],
                i <= last,
                nn == n * n,
                n > 0,
                counts@.len() == nn,
                tokens_below(encs, n as nat),
                forall|k: int| 0 <= k < nn ==> #[trigger] counts@[k] == pair_count(s.take(i + 1), pair_first(k, n as nat), pair_second(k, n as nat)),
            decreases last - i,
        {
            let a = tokens[i].0;
            let b = tokens[i + 1].0;
            assert(a < n && b < n) by {
                assert(encs[0][i as int] == s[i as int]);
                assert(encs[0][i + 1] == s[i + 1]);
            }
            assert(a + b * n < n * n) by (nonlinear_arith)
                requires a < n, b < n;
            let idx = a + b * n;
            proof {
                lemma_pair_index(a as int, b as int, n as int);
                lemma_pair_count_bound(s.take(i + 1), s[i as int], s[i + 1]);
                lemma_pair_count_step(s, i as int, s[i as int], s[i + 1]);
            }
            let ghost old_counts = counts@;
            counts[idx] = counts[idx] + 1;
            assert forall|k: int| 0 <= k < nn implies #[trigger] counts@[k] == pair_count(s.take(i + 2), pair_first(k, n as nat), pair_second(k, n as nat)) by {
                lemma_pair_count_step(s, i as int, pair_first(k, n as nat), pair_second(k, n as nat));
                if k != idx {
                    lemma_index_of_pair(k, n as int);
                    if pair_first(k, n as nat) == s[i as int] && pair_second(k, n as nat) == s[i + 1] {
                        assert(k == a + b * n);
                    }
                }
            }
            i += 1;
        }
        assert(s.take(i + 1) =~= s);
        assert(as_ints(counts@) =~= count_table(encs, n as nat)) by {
            assert forall|k: int| 0 <= k < nn implies as_ints(counts@)[k] == count_table(encs, n as nat)[k] by {
                assert(encs.drop_last() =~= Seq::<Seq<Token>>::empty());
                assert(corpus_pair_count(Seq::<Seq<Token>>::empty(), pair_first(k, n as nat), pair_second(k, n as nat)) == 0);
                assert(encs.last() == s);
                assert(corpus_pair_count(encs, pair_first(k, n as nat), pair_second(k, n as nat)) == pair_count(s, pair_first(k, n as nat), pair_second(k, n as nat)));
            }
        }
        assert(nn > 0) by (nonlinear_arith)
            requires n > 0, nn == n * n;
        let m = position_max(&counts).unwrap();
        proof {
            lemma_best_index(encs, n as nat);
            lemma_last_max_unique(count_table(encs, n as nat), m as int, crate::counting::best_index(encs, n as nat));
        }
        ((Token(m % n), Token(m / n)), counts[m])
    }

    /// Trains a tokenizer on `text`, merging pairs until none occurs twice.
    pub fn from_text(text: &String) -> (tok: Self)
        requires
            text@.len() >= 1,
            pair_tables_fit(text@, 0),
        ensures
            tok.trained_on(text@, 0),
    {
        Self::from_text_with_vocab_size(text, 0)
    }

    /// `self` is the tokenizer that training on `text` with the vocabulary
    /// size `vocab_size` (0: no limit) gives.
    pub open spec fn trained_on(&self, text: Seq<char>, vocab_size: nat) -> bool {
        let corpus = seq![text];
        let d = corpus_chars(corpus).len();
        &&& self.well_formed()
        &&& self.merge_rules() == train_rules(initial_encodings(corpus), d, vocab_size, 2)
        &&& forall|c: char| #[trigger] self.knows_char(c) <==> text.contains(c)
        &&& forall|c: char| text.contains(c) ==> #[trigger] self.char_token(c) == initial_token(corpus, c)
        &&& forall|k: usize| #[trigger] self.texts().contains_key(k) <==> k < d + self.merge_rules().len()
        &&& d + self.merge_rules().len() <= usize::MAX
        &&& text.to_set().map(|c: char| self.char_token(c).0) == Set::new(|k: usize| k < d)
        &&& self.char_tokens().dom() == text.to_set().map(|c: char| c as u32)
    }

    /// Trains a tokenizer on `text`: starting from one token per distinct
    /// character (numbered in code point order), it repeatedly merges the most
    /// common pair of adjacent tokens into a new token, while that pair occurs
    /// at least twice and, when `vocab_size` is not 0, fewer than `vocab_size`
    /// tokens exist.
    pub fn from_text_with_vocab_size(text: &String, vocab_size: usize) -> (tok: Self)
        requires
            text@.len() >= 1,
            pair_tables_fit(text@, vocab_size as nat),
        ensures
            tok.trained_on(text@, vocab_size as nat),
    {
        match Self::try_from_text_with_vocab_size(text, vocab_size) {
            Some(tok) => tok,
            None => vstd::pervasive::unreached(),
        }
    }

    /// Training as [`BPETokenizer::from_text_with_vocab_size`] describes,
    /// with the size of each table of pair counts checked; `None` exactly
    /// when one of them would not fit in a `usize`.
    pub fn try_from_text_with_vocab_size(text: &String, vocab_size: usize) -> (res: Option<Self>)
        requires
            text@.len() >= 1,
        ensures
            res is None <==> !pair_tables_fit(text@, vocab_size as nat),
            res matches Some(tok) ==> tok.trained_on(text@, vocab_size as nat),
    {
        let ghost corpus = seq![text@];
        let ghost len = text@.len();
        let chars = chars_of(text);
        let sorted = distinct_sorted(chars.clone());
        let d = sorted.len();
        proof {
            assert(corpus.drop_last() =~= Seq::<Seq<char>>::empty());
            assert(corpus_text(Seq::<Seq<char>>::empty()) == Seq::<char>::empty());
            assert(corpus.last() == text@);
            assert(corpus_text(corpus) =~= text@);
            assert(sorted@.no_duplicates()) by {
                assert forall|x: int, y: int| 0 <= x < sorted@.len() && 0 <= y < sorted@.len() && x != y implies sorted@[x] != sorted@[y] by {
                    if x < y { assert((sorted@[x] as u32) < (sorted@[y] as u32)); } else { assert((sorted@[y] as u32) < (sorted@[x] as u32)); }
                }
            }
            sorted@.unique_seq_to_set();
            text@.lemma_cardinality_of_set();
            assert(text@.contains(text@[0]));
        }
        let ghost chars_set = corpus_chars(corpus);
        assert(d == chars_set.len());
        assert(d >= 1) by {
            assert(chars_set.contains(text@[0]));
        }
        assert(d <= len);

        // one token per character
        let mut vocab: HashMap<u32, Token> = HashMap::new();
        let mut token_map: HashMap<usize, String> = HashMap::new();
        let mut i: usize = 0;
        while i < d
            invariant
                d == sorted@.len(),
                strictly_increasing(sorted@),
                i <= d,
                forall|key: u32| #[trigger] vocab@.contains_key(key) <==> exists|k: int| 0 <= k < i && sorted@[k] as u32 == key,
                forall|k: int| 0 <= k < i ==> #[trigger] vocab@[sorted@[k] as u32] == Token(k as usize),
                forall|k: usize| #[trigger] token_map@.contains_key(k) <==> k < i,
                forall|k: usize| k < i ==> #[trigger] token_map@[k]@ == seq![sorted@[k as int]],
            decreases d - i,
        {
            let c = sorted[i];
            proof {
                assert forall|k: int| 0 <= k < i implies sorted@[k] as u32 != c as u32 by {
                    assert((sorted@[k] as u32) < (sorted@[i as int] as u32));
                }
            }
            vocab.insert(c as u32, Token(i));
            token_map.insert(i, char_to_string(c));
            proof {
                assert forall|key: u32| #[trigger] vocab@.contains_key(key) <==> exists|k: int| 0 <= k < i + 1 && sorted@[k] as u32 == key by {
                    if key == c as u32 {
                        assert(sorted@[i as int] as u32 == key);
                    }
                }
            }
            i += 1;
        }

        // the text as character tokens
        let mut encoding: Vec<Token> = Vec::new();
        let mut j: usize = 0;
        while j < chars.len()
            invariant
                chars@ == text@,
                corpus == seq![text@],
                chars_set == corpus_chars(corpus),
                sorted@.to_set() == chars@.to_set(),
                corpus_text(corpus) == text@,
                d == sorted@.len(),
                strictly_increasing(sorted@),
                j <= chars.len(),
                forall|key: u32| #[trigger] vocab@.contains_key(key) <==> exists|k: int| 0 <= k < d && sorted@[k] as u32 == key,
                forall|k: int| 0 <= k < d ==> #[trigger] vocab@[sorted@[k] as u32] == Token(k as usize),
                encoding@ == initial_encoding(corpus, chars@.take(j as int)),
                forall|k: int| 0 <= k < encoding@.len() ==> (#[trigger] encoding@[k]).0 < d,
            decreases chars.len() - j,
        {
            let c = chars[j];
            let ghost k = sorted@.index_of(c);
            proof {
                assert(chars@.to_set().contains(c));
                assert(sorted@.contains(c));
                lemma_rank_is_position(sorted@, k);
            }
            let t = *vocab.get(&(c as u32)).unwrap();
            proof {
                let k2 = choose|k2: int| 0 <= k2 < d && sorted@[k2] as u32 == c as u32;
                if sorted@[k2] != c {
                    lemma_char_code_injective(sorted@[k2], c);
                }
                assert(sorted@[k2] == sorted@[k]);
                if k2 != k {
                    if k2 < k { assert((sorted@[k2] as u32) < (sorted@[k] as u32)); } else { assert((sorted@[k] as u32) < (sorted@[k2] as u32)); }
                }
                assert(t == Token(k as usize));
                assert(t == initial_token(corpus, c));
            }
            encoding.push(t);
            assert(encoding@ =~= initial_encoding(corpus, chars@.take(j + 1)));
            j += 1;
        }
        assert(chars@.take(j as int) =~= text@);
        assert(initial_encodings(corpus) =~= seq![encoding@]);
        let ghost initial = seq![encoding@];
        let ghost last: nat = (d + train_rules(initial, d as nat, vocab_size as nat, 2).len()) as nat;

        // training
        let mut rules: Vec<Rule> = Vec::new();
        let mut token = d;
        let mut buffer: Vec<Token> = Vec::new();
        assert(tokens_below(seq![encoding@], token as nat));
        while vocab_size == 0 || token < vocab_size
            invariant
                token == d + rules@.len(),
                1 <= d <= len,
                len == text@.len(),
                last == d + train_rules(initial, d as nat, vocab_size as nat, 2).len(),
                initial == initial_encodings(corpus),
                corpus == seq![text@],
                d == corpus_chars(corpus).len(),
                token <= last,
                forall|t: nat| d <= t < token && continues(vocab_size as nat, t) ==> #[trigger] square_fits(t),
                encoding@.len() >= 1,
                encoding@.len() + rules@.len() <= len,
                buffer@.len() == 0,
                tokens_below(seq![encoding@], token as nat),
                rules@ + train_rules(seq![encoding@], token as nat, vocab_size as nat, 2) == train_rules(initial, d as nat, vocab_size as nat, 2),
                forall|k: usize| #[trigger] token_map@.contains_key(k) <==> k < token,
                forall|k: usize| k < d ==> #[trigger] token_map@[k]@ == seq![sorted@[k as int]],
                forall|r: int| 0 <= r < rules@.len() ==> {
                    let rule = #[trigger] rules@[r];
                    &&& rule.replacement == Token((d + r) as usize)
                    &&& rule.a.0 < d + r
                    &&& rule.b.0 < d + r
                    &&& token_map@[(d + r) as usize]@ == token_map@[rule.a.0]@ + token_map@[rule.b.0]@
                },
            ensures
                stops(seq![encoding@], token as nat, vocab_size as nat, 2),
                forall|t: nat| d <= t <= token && continues(vocab_size as nat, t) ==> #[trigger] square_fits(t),
            decreases encoding@.len(),
        {
            let ghost cur = seq![encoding@];
            assert(continues(vocab_size as nat, token as nat));
            let square = match token.checked_mul(token) {
                Some(sq) => sq,
                None => {
                    assert(!square_fits(token as nat));
                    return None;
                },
            };
            assert(square_fits(token as nat));
            let ((a, b), n) = Self::most_common_pair(&encoding, token);
            if n < 2 {
                assert(stops(cur, token as nat, vocab_size as nat, 2));
                break;
            }
            let rule = Rule::new(a, b, Token(token));
            proof {
                lemma_best_index(cur, token as nat);
                assert(rule == best_rule(cur, token as nat));
                assert(train_rules(cur, token as nat, vocab_size as nat, 2) == seq![rule] + train_rules(apply_rule_all(rule, cur), (token + 1) as nat, vocab_size as nat, 2));
                assert(cur.drop_last() =~= Seq::<Seq<Token>>::empty());
                assert(corpus_pair_count(Seq::<Seq<Token>>::empty(), a, b) == 0);
                assert(cur.last() == encoding@);
                lemma_pair_count_occurs(encoding@, a, b);
                lemma_merge_shortens(rule, encoding@);
                lemma_merge_nonempty(rule, encoding@);
                lemma_tokens_below_step(cur, token as nat, rule);
            }
            rule.apply_into(&encoding, &mut buffer);
            assert(buffer@ =~= rule.merge_all(encoding@));
            std::mem::swap(&mut encoding, &mut buffer);
            buffer.clear();
            assert(seq![encoding@] =~= apply_rule_all(rule, cur));
            assert(rules@.push(rule) + train_rules(seq![encoding@], (token + 1) as nat, vocab_size as nat, 2) =~= rules@ + (seq![rule] + train_rules(apply_rule_all(rule, cur), (token + 1) as nat, vocab_size as nat, 2)));

            let combined = concat_strings(token_map.get(&a.0).unwrap(), token_map.get(&b.0).unwrap());
            token_map.insert(token, combined);
            rules.push(rule);
            assert(token + 1 <= usize::MAX) by (nonlinear_arith)
                requires token * token <= usize::MAX, token >= 1, usize::MAX > 3;
            token += 1;
        }
        assert(stops(seq![encoding@], token as nat, vocab_size as nat, 2));
        assert(train_rules(seq![encoding@], token as nat, vocab_size as nat, 2) =~= Seq::<Rule>::empty());
        assert(rules@ + Seq::<Rule>::empty() =~= rules@);
        assert(token == last);

        let tok = BPETokenizer { vocab, token_map, rules };
        proof {
            assert(corpus_chars(corpus) =~= sorted@.to_set());
            assert forall|c: char| #[trigger] tok.knows_char(c) <==> text@.contains(c) by {
                if tok.knows_char(c) {
                    let k = choose|k: int| 0 <= k < d && sorted@[k] as u32 == c as u32;
                    if sorted@[k] != c {
                        lemma_char_code_injective(sorted@[k], c);
                    }
                    assert(sorted@.to_set().contains(c));
                    assert(chars@.to_set().contains(c));
                }
                if text@.contains(c) {
                    assert(chars@.to_set().contains(c));
                    assert(sorted@.contains(c));
                    let k = sorted@.index_of(c);
                    assert(vocab@.contains_key(sorted@[k] as u32));
                }
            }
            assert forall|c: char| #[trigger] tok.knows_char(c) implies
                tok.char_token(c) == Token(sorted@.index_of(c) as usize) && sorted@.contains(c) && 0 <= sorted@.index_of(c) < d by {
                let k = choose|k: int| 0 <= k < d && sorted@[k] as u32 == c as u32;
                if sorted@[k] != c {
                    lemma_char_code_injective(sorted@[k], c);
                }
                assert(sorted@.contains(c));
                let k2 = sorted@.index_of(c);
                if k2 != k {
                    if k2 < k { assert((sorted@[k2] as u32) < (sorted@[k] as u32)); } else { assert((sorted@[k] as u32) < (sorted@[k2] as u32)); }
                }
            }
            assert forall|c: char| text@.contains(c) implies #[trigger] tok.char_token(c) == initial_token(corpus, c) by {
                assert(tok.knows_char(c));
                lemma_rank_is_position(sorted@, sorted@.index_of(c));
            }
            assert forall|c: char| #[trigger] tok.knows_char(c) implies
                tok.has_token(tok.char_token(c)) && tok.token_text(tok.char_token(c)) == seq![c] by {
                let k = sorted@.index_of(c);
                assert((k as usize) < d);
                assert(token_map@[k as usize]@ == seq![sorted@[k]]);
            }
            assert forall|r: int| 0 <= r < tok.merge_rules().len() implies {
                let rule = #[trigger] tok.merge_rules()[r];
                &&& tok.has_token(rule.a)
                &&& tok.has_token(rule.b)
                &&& tok.has_token(rule.replacement)
                &&& tok.token_text(rule.replacement) == tok.token_text(rule.a) + tok.token_text(rule.b)
            } by {
                let rule = rules@[r];
                assert(rule.replacement.0 == (d + r) as usize);
            }
            assert(tok.well_formed());
            let image = text@.to_set().map(|c: char| tok.char_token(c).0);
            assert forall|k: usize| k < d implies #[trigger] image.contains(k) by {
                let c = sorted@[k as int];
                assert(sorted@.contains(c));
                assert(sorted@.to_set().contains(c));
                assert(chars@.to_set().contains(c));
                assert(tok.knows_char(c));
                assert(sorted@.index_of(c) == k) by {
                    let k2 = sorted@.index_of(c);
                    if k2 != k {
                        if k2 < k { assert((sorted@[k2] as u32) < (sorted@[k as int] as u32)); } else { assert((sorted@[k as int] as u32) < (sorted@[k2] as u32)); }
                    }
                }
                assert(text@.contains(c));
                assert(tok.char_token(c) == Token(k));
                assert(text@.to_set().contains(c));
            }
            assert forall|k: usize| #[trigger] image.contains(k) implies k < d by {
                let c = choose|c: char| text@.to_set().contains(c) && tok.char_token(c).0 == k;
                assert(text@.contains(c));
                assert(tok.knows_char(c));
            }
            assert(image =~= Set::new(|k: usize| k < d));
            assert(is_char_table(vocab@, sorted@));
            lemma_char_table_dom(vocab@, sorted@);
            assert(sorted@.to_set() =~= text@.to_set());
        }
        Some(tok)
    }
}

/// Law: decoding the encoding of a text gives the text back, for every
/// well-formed tokenizer and every text over its characters; every token of
/// the encoding can be decoded; and the encoding has no more tokens than the
/// text has characters.
pub proof fn lemma_decode_encode(tok: &BPETokenizer, text: Seq<char>)
    requires
        tok.well_formed(),
        forall|i: int| 0 <= i < text.len() ==> tok.knows_char(#[trigger] text[i]),
    ensures
        tok.decoding_of(tok.encoding_of(text)) == text,
        forall|i: int| 0 <= i < tok.encoding_of(text).len() ==> tok.has_token(#[trigger] tok.encoding_of(text)[i]),
        tok.encoding_of(text).len() <= text.len(),
{
    let char_token = |c: char| tok.char_token(c);
    let valid = |t: Token| tok.has_token(t);
    assert forall|i: int| 0 <= i < text.len() implies valid(char_token(#[trigger] text[i])) && tok.piece()(char_token(text[i])) == seq![text[i]] by {
        assert(tok.knows_char(text[i]));
    }
    assert forall|i: int| 0 <= i < tok.merge_rules().len() implies {
        let r = #[trigger] tok.merge_rules()[i];
        &&& valid(r.replacement)
        &&& tok.piece()(r.replacement) == tok.piece()(r.a) + tok.piece()(r.b)
    } by {}
    lemma_encoding_spells_text(tok.piece(), valid, char_token, tok.merge_rules(), text);
    assert(text.map_values(char_token) =~= text.map_values(|c: char| tok.char_token(c)));
}

/// Law: a trained tokenizer has one token per distinct character of its text
/// and one per rule.
pub proof fn lemma_token_count(tok: &BPETokenizer, text: Seq<char>, vocab_size: nat)
    requires
        tok.trained_on(text, vocab_size),
    ensures
        tok.texts().len() == corpus_chars(seq![text]).len() + tok.merge_rules().len(),
{
    let n = corpus_chars(seq![text]).len() + tok.merge_rules().len();
    broadcast use vstd::set_lib::range_set_properties;
    assert(tok.texts().dom() =~= Set::<usize>::range(0, n as usize));
}

/// Token `k` of `t1` spells what token `k` of `t2` spells, when both were
/// trained on `text` and the rules of `t1` are a prefix of those of `t2`.
proof fn lemma_token_text_agrees(t1: &BPETokenizer, t2: &BPETokenizer, text: Seq<char>, v1: nat, v2: nat, k: int)
    requires
        t1.trained_on(text, v1),
        t2.trained_on(text, v2),
        t1.merge_rules().is_prefix_of(t2.merge_rules()),
        0 <= k < corpus_chars(seq![text]).len() + t1.merge_rules().len(),
    ensures
        t1.texts().contains_key(k as usize),
        t2.texts().contains_key(k as usize),
        t1.texts()[k as usize]@ == t2.texts()[k as usize]@,
    decreases k,
{
    let d = corpus_chars(seq![text]).len();
    let r1 = t1.merge_rules();
    let r2 = t2.merge_rules();
    if k < d {
        let image = text.to_set().map(|c: char| t1.char_token(c).0);
        assert(image.contains(k as usize));
        let c = choose|c: char| text.to_set().contains(c) && (k as usize) == t1.char_token(c).0;
        assert(text.contains(c));
        assert(t1.knows_char(c));
        assert(t2.knows_char(c));
        assert(t1.char_token(c) == t2.char_token(c));
    } else {
        let r = k - d;
        lemma_train_rules_shape(initial_encodings(seq![text]), d, v2, 2);
        assert(r1[r] == r2.subrange(0, r1.len() as int)[r]);
        let rule = r2[r];
        assert(rule.replacement == Token((d + r) as usize));
        assert(t1.has_token(r1[r].a) && t1.has_token(r1[r].b));
        lemma_token_text_agrees(t1, t2, text, v1, v2, rule.a.0 as int);
        lemma_token_text_agrees(t1, t2, text, v1, v2, rule.b.0 as int);
        assert(t2.has_token(r2[r].replacement));
        assert(t1.token_text(rule.replacement) == t1.token_text(rule.a) + t1.token_text(rule.b));
        assert(t2.token_text(rule.replacement) == t2.token_text(rule.a) + t2.token_text(rule.b));
    }
}

/// Two tokenizers trained on `text`, the rules of the first a prefix of
/// those of the second, agree on the character table, and every token text
/// of the first is the same token's text in the second.
proof fn lemma_tables_agree(t1: &BPETokenizer, t2: &BPETokenizer, text: Seq<char>, v1: nat, v2: nat)
    requires
        t1.trained_on(text, v1),
        t2.trained_on(text, v2),
        t1.merge_rules().is_prefix_of(t2.merge_rules()),
    ensures
        t1.char_tokens() == t2.char_tokens(),
        forall|k: usize| #[trigger] t1.texts().contains_key(k) ==> t2.texts().contains_key(k) && t1.texts()[k]@ == t2.texts()[k]@,
{
    assert forall|key: u32| #[trigger] t1.char_tokens().contains_key(key) implies t1.char_tokens()[key] == t2.char_tokens()[key] by {
        assert(t1.char_tokens().dom().contains(key));
        let c = choose|c: char| text.to_set().contains(c) && key == c as u32;
        assert(text.contains(c));
        assert(t1.char_token(c) == initial_token(seq![text], c));
        assert(t2.char_token(c) == initial_token(seq![text], c));
    }
    assert(t1.char_tokens().dom() =~= t2.char_tokens().dom());
    assert(t1.char_tokens() =~= t2.char_tokens());
    assert forall|k: usize| #[trigger] t1.texts().contains_key(k) implies t2.texts().contains_key(k) && t1.texts()[k]@ == t2.texts()[k]@ by {
        lemma_token_text_agrees(t1, t2, text, v1, v2, k as int);
    }
}

/// Law, on the results of [`BPETokenizer::from_text_with_vocab_size`]: training twice on the same text with the same vocabulary size gives
/// the same tokenizer: the same rules, character table and token texts.
pub proof fn lemma_training_deterministic(t1: &BPETokenizer, t2: &BPETokenizer, text: Seq<char>, vocab_size: nat)
    requires
        t1.trained_on(text, vocab_size),
        t2.trained_on(text, vocab_size),
    ensures
        t1.merge_rules() == t2.merge_rules(),
        t1.char_tokens() == t2.char_tokens(),
        t1.texts().dom() == t2.texts().dom(),
        forall|k: usize| #[trigger] t1.texts().contains_key(k) ==> t1.texts()[k]@ == t2.texts()[k]@,
{
    assert(t1.merge_rules() =~= t2.merge_rules().subrange(0, t1.merge_rules().len() as int));
    lemma_tables_agree(t1, t2, text, vocab_size, vocab_size);
    assert(t1.texts().dom() =~= t2.texts().dom());
}

/// Law, on the results of [`BPETokenizer::from_text_with_vocab_size`]: with a vocabulary size `small` that is set and not above `large`
/// (0: no limit), training learns a prefix of the rules it learns with
/// `large`, with the same character table, and every token text it learns is
/// that token's text under `large` too.
pub proof fn lemma_vocab_size_prefix(t1: &BPETokenizer, t2: &BPETokenizer, text: Seq<char>, small: nat, large: nat)
    requires
        t1.trained_on(text, small),
        t2.trained_on(text, large),
        small > 0,
        large == 0 || small <= large,
    ensures
        t1.merge_rules().is_prefix_of(t2.merge_rules()),
        t1.char_tokens() == t2.char_tokens(),
        forall|k: usize| #[trigger] t1.texts().contains_key(k) ==> t2.texts().contains_key(k) && t1.texts()[k]@ == t2.texts()[k]@,
{
    lemma_train_rules_vocab_prefix(initial_encodings(seq![text]), corpus_chars(seq![text]).len(), small, large, 2);
    lemma_tables_agree(t1, t2, text, small, large);
}

/// Law: the rules of a trained tokenizer are fresh: each replaces a pair by
/// a token new at that point, used by neither its own pair nor an earlier
/// rule's pair. So [`BPETokenizer::encode`] applies every rule: the pair of
/// no rule is left in an encoding.
pub proof fn lemma_trained_rules_fresh(tok: &BPETokenizer, text: Seq<char>, vocab_size: nat)
    requires
        tok.trained_on(text, vocab_size),
    ensures
        fresh_rules(tok.merge_rules()),
        forall|t: Seq<char>, k: int| 0 <= k < tok.merge_rules().len()
            ==> !pair_occurs(#[trigger] tok.encoding_of(t), (#[trigger] tok.merge_rules()[k]).a, tok.merge_rules()[k].b),
{
    let d = corpus_chars(seq![text]).len();
    lemma_train_rules_shape(initial_encodings(seq![text]), d, vocab_size, 2);
    lemma_numbered_rules_fresh(tok.merge_rules(), d);
    assert forall|t: Seq<char>, k: int| 0 <= k < tok.merge_rules().len()
        implies !pair_occurs(#[trigger] tok.encoding_of(t), (#[trigger] tok.merge_rules()[k]).a, tok.merge_rules()[k].b) by {
        lemma_apply_rules_leaves_no_pair(tok.merge_rules(), t.map_values(|c: char| tok.char_token(c)));
    }
}

} // verus!
