//! The training loop as a mathematical model: repeatedly merge the most
//! common pair of tokens into a new token.

use vstd::prelude::*;
use crate::merge::{Token, Rule, concat_pieces, pair_occurs, lemma_merge_keeps_no_pair, lemma_merge_leaves_no_pair, lemma_merge_len_le, lemma_merge_shortens, lemma_merge_tokens, lemma_merge_preserves_text};
use crate::text::{corpus_chars, char_rank};
use crate::counting::{best_count, best_first, best_second, corpus_pair_count, total_len, pair_count, tokens_below, lemma_best_index, lemma_pair_count_occurs};

verus! {

/// The token that a fresh tokenizer gives the character `c` of `corpus`:
/// its rank among the corpus's characters.
pub open spec fn initial_token(corpus: Seq<Seq<char>>, c: char) -> Token {
    Token(char_rank(corpus_chars(corpus), c) as usize)
}

/// A text of `corpus` as the tokens of its characters.
pub open spec fn initial_encoding(corpus: Seq<Seq<char>>, text: Seq<char>) -> Seq<Token> {
    text.map_values(|c: char| initial_token(corpus, c))
}

/// Every text of `corpus` as the tokens of its characters.
pub open spec fn initial_encodings(corpus: Seq<Seq<char>>) -> Seq<Seq<Token>> {
    corpus.map_values(|t: Seq<char>| initial_encoding(corpus, t))
}

/// One merge pass of `rule` over every sequence.
pub open spec fn apply_rule_all(rule: Rule, encs: Seq<Seq<Token>>) -> Seq<Seq<Token>> {
    Seq::new(encs.len(), |i: int| rule.merge_all(encs[i]))
}

/// The merge passes of `rules`, first to last, over every sequence.
pub open spec fn apply_rules_all(rules: Seq<Rule>, encs: Seq<Seq<Token>>) -> Seq<Seq<Token>>
    decreases rules.len(),
{
    if rules.len() == 0 {
        encs
    } else {
        apply_rules_all(rules.skip(1), apply_rule_all(rules[0], encs))
    }
}

/// The merge passes of `rules`, first to last, over one sequence.
pub open spec fn apply_rules(rules: Seq<Rule>, s: Seq<Token>) -> Seq<Token>
    decreases rules.len(),
{
    if rules.len() == 0 {
        s
    } else {
        apply_rules(rules.skip(1), rules[0].merge_all(s))
    }
}

/// The training loop goes on while no vocabulary size is set (0) or the
/// next token is below it.
pub open spec fn continues(vocab_size: nat, n: nat) -> bool {
    vocab_size == 0 || n < vocab_size
}

/// The rule that merges the most common pair into the new token `n`.
pub open spec fn best_rule(encs: Seq<Seq<Token>>, n: nat) -> Rule {
    Rule { a: best_first(encs, n), b: best_second(encs, n), replacement: Token(n as usize) }
}

/// The training loop stops at this state: the vocabulary is full, or no
/// pair is frequent enough.
pub open spec fn stops(encs: Seq<Seq<Token>>, n: nat, vocab_size: nat, min_frequency: nat) -> bool {
    !continues(vocab_size, n) || best_count(encs, n) < min_frequency
}

/// The rules that training learns from `encs`, whose tokens are below `n`,
/// when each step merges the most common pair, the last in table order among
/// equally common ones.
pub open spec fn train_rules(encs: Seq<Seq<Token>>, n: nat, vocab_size: nat, min_frequency: nat) -> Seq<Rule>
    decreases total_len(encs),
{
    if n == 0 || stops(encs, n, vocab_size, min_frequency) || best_count(encs, n) == 0 {
        Seq::<Rule>::empty()
    } else {
        proof {
            lemma_best_rule_shortens(encs, n);
        }
        seq![best_rule(encs, n)] + train_rules(apply_rule_all(best_rule(encs, n), encs), n + 1, vocab_size, min_frequency)
    }
}

/// `rule` merges a most common pair of tokens below `n` into the new token `n`.
pub open spec fn is_max_step(encs: Seq<Seq<Token>>, n: nat, rule: Rule) -> bool {
    &&& rule.replacement == Token(n as usize)
    &&& rule.a.0 < n
    &&& rule.b.0 < n
    &&& corpus_pair_count(encs, rule.a, rule.b) == best_count(encs, n)
}

/// `rules` are the steps of a training run from `encs` that may not have
/// stopped yet: each step merges a most common pair, frequent enough, while
/// the vocabulary is not full.
pub open spec fn is_max_prefix(encs: Seq<Seq<Token>>, n: nat, rules: Seq<Rule>, vocab_size: nat, min_frequency: nat) -> bool
    decreases rules.len(),
{
    rules.len() == 0 || {
        &&& !stops(encs, n, vocab_size, min_frequency)
        &&& is_max_step(encs, n, rules[0])
        &&& is_max_prefix(apply_rule_all(rules[0], encs), n + 1, rules.skip(1), vocab_size, min_frequency)
    }
}

/// `rules` are a complete training run from `encs`, in which each step merges
/// some most common pair (any one among equally common pairs).
pub open spec fn is_max_run(encs: Seq<Seq<Token>>, n: nat, rules: Seq<Rule>, vocab_size: nat, min_frequency: nat) -> bool {
    &&& is_max_prefix(encs, n, rules, vocab_size, min_frequency)
    &&& stops(apply_rules_all(rules, encs), n + rules.len(), vocab_size, min_frequency)
}

/// Some sequence holds at least two tokens.
pub open spec fn has_pair(encs: Seq<Seq<Token>>) -> bool {
    exists|i: int| 0 <= i < encs.len() && #[trigger] encs[i].len() >= 2
}

pub proof fn lemma_apply_total_len(rule: Rule, encs: Seq<Seq<Token>>)
    ensures
        total_len(apply_rule_all(rule, encs)) <= total_len(encs),
        corpus_pair_count(encs, rule.a, rule.b) > 0 ==> total_len(apply_rule_all(rule, encs)) < total_len(encs),
    decreases encs.len(),
{
    if encs.len() > 0 {
        let rest = encs.drop_last();
        assert(apply_rule_all(rule, encs).drop_last() =~= apply_rule_all(rule, rest));
        lemma_apply_total_len(rule, rest);
        lemma_merge_len_le(rule, encs.last());
        if pair_count(encs.last(), rule.a, rule.b) > 0 {
            lemma_pair_count_occurs(encs.last(), rule.a, rule.b);
            lemma_merge_shortens(rule, encs.last());
        }
    }
}

pub proof fn lemma_best_rule_shortens(encs: Seq<Seq<Token>>, n: nat)
    requires
        n > 0,
        best_count(encs, n) > 0,
    ensures
        total_len(apply_rule_all(best_rule(encs, n), encs)) < total_len(encs),
{
    lemma_best_index(encs, n);
    lemma_apply_total_len(best_rule(encs, n), encs);
}

/// One more merge pass after the others.
pub proof fn lemma_apply_rules_all_push(rules: Seq<Rule>, rule: Rule, encs: Seq<Seq<Token>>)
    ensures
        apply_rules_all(rules.push(rule), encs) == apply_rule_all(rule, apply_rules_all(rules, encs)),
    decreases rules.len(),
{
    assert(rules.push(rule)[0] == if rules.len() == 0 { rule } else { rules[0] });
    if rules.len() == 0 {
        assert(rules.push(rule).skip(1) =~= Seq::<Rule>::empty());
        let e = apply_rule_all(rule, encs);
        assert(apply_rules_all(Seq::<Rule>::empty(), e) == e);
    } else {
        assert(rules.push(rule).skip(1) =~= rules.skip(1).push(rule));
        lemma_apply_rules_all_push(rules.skip(1), rule, apply_rule_all(rules[0], encs));
    }
}

pub proof fn lemma_apply_rules_push(rules: Seq<Rule>, rule: Rule, s: Seq<Token>)
    ensures
        apply_rules(rules.push(rule), s) == rule.merge_all(apply_rules(rules, s)),
    decreases rules.len(),
{
    assert(rules.push(rule)[0] == if rules.len() == 0 { rule } else { rules[0] });
    if rules.len() == 0 {
        assert(rules.push(rule).skip(1) =~= Seq::<Rule>::empty());
        let e = rule.merge_all(s);
        assert(apply_rules(Seq::<Rule>::empty(), e) == e);
    } else {
        assert(rules.push(rule).skip(1) =~= rules.skip(1).push(rule));
        lemma_apply_rules_push(rules.skip(1), rule, rules[0].merge_all(s));
    }
}

/// Running all rules over a corpus runs them over each of its sequences.
pub proof fn lemma_apply_rules_all_index(rules: Seq<Rule>, encs: Seq<Seq<Token>>)
    ensures
        apply_rules_all(rules, encs).len() == encs.len(),
        forall|i: int| 0 <= i < encs.len() ==> #[trigger] apply_rules_all(rules, encs)[i] == apply_rules(rules, encs[i]),
    decreases rules.len(),
{
    if rules.len() > 0 {
        lemma_apply_rules_all_index(rules.skip(1), apply_rule_all(rules[0], encs));
    }
}

/// A run prefix extended by one more most-common-pair step.
pub proof fn lemma_max_prefix_push(encs: Seq<Seq<Token>>, n: nat, rules: Seq<Rule>, rule: Rule, vocab_size: nat, min_frequency: nat)
    requires
        is_max_prefix(encs, n, rules, vocab_size, min_frequency),
        !stops(apply_rules_all(rules, encs), n + rules.len(), vocab_size, min_frequency),
        is_max_step(apply_rules_all(rules, encs), n + rules.len(), rule),
    ensures
        is_max_prefix(encs, n, rules.push(rule), vocab_size, min_frequency),
    decreases rules.len(),
{
    if rules.len() == 0 {
        assert(rules.push(rule).skip(1) =~= Seq::<Rule>::empty());
        assert(rules.push(rule)[0] == rule);
        assert(apply_rules_all(rules, encs) == encs);
        let e = apply_rule_all(rule, encs);
        assert(is_max_prefix(e, n + 1, Seq::<Rule>::empty(), vocab_size, min_frequency));
    } else {
        assert(apply_rules_all(rules, encs) == apply_rules_all(rules.skip(1), apply_rule_all(rules[0], encs)));
        assert(rules.push(rule).skip(1) =~= rules.skip(1).push(rule));
        assert(rules.push(rule)[0] == rules[0]);
        lemma_max_prefix_push(apply_rule_all(rules[0], encs), n + 1, rules.skip(1), rule, vocab_size, min_frequency);
    }
}

/// Merging a pair of tokens below `n` into `n` keeps every token below `n + 1`.
pub proof fn lemma_tokens_below_step(encs: Seq<Seq<Token>>, n: nat, rule: Rule)
    requires
        tokens_below(encs, n),
        rule.replacement.0 == n,
    ensures
        tokens_below(apply_rule_all(rule, encs), n + 1),
{
    let next = apply_rule_all(rule, encs);
    assert forall|i: int, j: int| 0 <= i < next.len() && 0 <= j < next[i].len() implies (#[trigger] next[i][j]).0 < n + 1 by {
        lemma_merge_tokens(rule, encs[i]);
        if next[i][j] != rule.replacement {
            let k = choose|k: int| 0 <= k < encs[i].len() && encs[i][k] == next[i][j];
            assert(encs[i][k].0 < n);
        }
    }
}

/// Law: the deterministic training run is a run that merges a most common
/// pair at every step, and it stops where training stops.
pub proof fn lemma_train_rules_is_max_run(encs: Seq<Seq<Token>>, n: nat, vocab_size: nat, min_frequency: nat)
    requires
        n > 0,
        min_frequency > 0,
    ensures
        is_max_run(encs, n, train_rules(encs, n, vocab_size, min_frequency), vocab_size, min_frequency),
    decreases total_len(encs),
{
    let rules = train_rules(encs, n, vocab_size, min_frequency);
    if stops(encs, n, vocab_size, min_frequency) || best_count(encs, n) == 0 {
        assert(rules.len() == 0);
        assert(apply_rules_all(rules, encs) == encs);
    } else {
        let r = best_rule(encs, n);
        lemma_best_rule_shortens(encs, n);
        lemma_best_index(encs, n);
        let next = apply_rule_all(r, encs);
        lemma_train_rules_is_max_run(next, n + 1, vocab_size, min_frequency);
        let rest = train_rules(next, n + 1, vocab_size, min_frequency);
        assert(rules == seq![r] + rest);
        assert(rules.skip(1) =~= rest);
        assert(rules[0] == r);
        assert(apply_rules_all(rules, encs) == apply_rules_all(rest, next));
        assert(n + rules.len() == n + 1 + rest.len());
    }
}

/// Law: merge passes keep the spelled text, and keep every token among the
/// `valid` ones, when every rule's replacement is valid and spells its pair.
pub proof fn lemma_rules_keep_spelling(
    piece: spec_fn(Token) -> Seq<char>,
    valid: spec_fn(Token) -> bool,
    rules: Seq<Rule>,
    s: Seq<Token>,
)
    requires
        forall|i: int| 0 <= i < rules.len() ==> {
            let r = #[trigger] rules[i];
            &&& valid(r.replacement)
            &&& piece(r.replacement) == piece(r.a) + piece(r.b)
        },
        forall|i: int| 0 <= i < s.len() ==> valid(#[trigger] s[i]),
    ensures
        concat_pieces(piece, apply_rules(rules, s)) == concat_pieces(piece, s),
        forall|i: int| 0 <= i < apply_rules(rules, s).len() ==> valid(#[trigger] apply_rules(rules, s)[i]),
    decreases rules.len(),
{
    if rules.len() > 0 {
        let r = rules[0];
        let next = r.merge_all(s);
        lemma_merge_preserves_text(piece, r, s);
        lemma_merge_tokens(r, s);
        assert forall|i: int| 0 <= i < next.len() implies valid(#[trigger] next[i]) by {
            if next[i] != r.replacement {
                let j = choose|j: int| 0 <= j < s.len() && s[j] == next[i];
                assert(valid(s[j]));
            }
        }
        assert forall|i: int| 0 <= i < rules.skip(1).len() implies {
            let q = #[trigger] rules.skip(1)[i];
            &&& valid(q.replacement)
            &&& piece(q.replacement) == piece(q.a) + piece(q.b)
        } by {
            assert(rules.skip(1)[i] == rules[i + 1]);
        }
        lemma_rules_keep_spelling(piece, valid, rules.skip(1), next);
    }
}

/// Sequences as long as the texts of a corpus hold as many tokens as the
/// corpus has characters.
pub proof fn lemma_total_len_matches(encs: Seq<Seq<Token>>, corpus: Seq<Seq<char>>)
    requires
        encs.len() == corpus.len(),
        forall|i: int| 0 <= i < encs.len() ==> #[trigger] encs[i].len() == corpus[i].len(),
    ensures
        total_len(encs) == crate::text::corpus_text(corpus).len(),
    decreases encs.len(),
{
    if encs.len() > 0 {
        lemma_total_len_matches(encs.drop_last(), corpus.drop_last());
    }
}

/// Law: a run that merges most common pairs never makes more tokens than a
/// vocabulary size that is set (not 0): with `n` tokens at the start, it
/// learns no rule when `n` is not below the size, and otherwise ends with at
/// most that many tokens.
pub proof fn lemma_max_prefix_vocab_bound(encs: Seq<Seq<Token>>, n: nat, rules: Seq<Rule>, vocab_size: nat, min_frequency: nat)
    requires
        is_max_prefix(encs, n, rules, vocab_size, min_frequency),
        vocab_size > 0,
    ensures
        n >= vocab_size ==> rules.len() == 0,
        n < vocab_size ==> n + rules.len() <= vocab_size,
    decreases rules.len(),
{
    if rules.len() > 0 {
        lemma_max_prefix_vocab_bound(apply_rule_all(rules[0], encs), n + 1, rules.skip(1), vocab_size, min_frequency);
    }
}

/// Law: the deterministic run stays within a vocabulary size that is set.
pub proof fn lemma_train_rules_vocab_bound(encs: Seq<Seq<Token>>, n: nat, vocab_size: nat, min_frequency: nat)
    requires
        n > 0,
        min_frequency > 0,
        vocab_size > 0,
    ensures
        n >= vocab_size ==> train_rules(encs, n, vocab_size, min_frequency).len() == 0,
        n < vocab_size ==> n + train_rules(encs, n, vocab_size, min_frequency).len() <= vocab_size,
{
    lemma_train_rules_is_max_run(encs, n, vocab_size, min_frequency);
    lemma_max_prefix_vocab_bound(encs, n, train_rules(encs, n, vocab_size, min_frequency), vocab_size, min_frequency);
}

/// Law: merge passes never lengthen a sequence of tokens.
pub proof fn lemma_apply_rules_len(rules: Seq<Rule>, s: Seq<Token>)
    ensures
        apply_rules(rules, s).len() <= s.len(),
    decreases rules.len(),
{
    if rules.len() > 0 {
        lemma_merge_len_le(rules[0], s);
        lemma_apply_rules_len(rules.skip(1), rules[0].merge_all(s));
    }
}

/// Tokens that each spell one character spell the text of those characters.
proof fn lemma_char_pieces(piece: spec_fn(Token) -> Seq<char>, char_token: spec_fn(char) -> Token, text: Seq<char>)
    requires
        forall|i: int| 0 <= i < text.len() ==> piece(char_token(#[trigger] text[i])) == seq![text[i]],
    ensures
        concat_pieces(piece, text.map_values(char_token)) == text,
    decreases text.len(),
{
    let toks = text.map_values(char_token);
    if text.len() > 0 {
        assert(piece(char_token(text[0])) == seq![text[0]]);
        assert(toks.skip(1) =~= text.skip(1).map_values(char_token));
        assert forall|i: int| 0 <= i < text.skip(1).len() implies piece(char_token(#[trigger] text.skip(1)[i])) == seq![text.skip(1)[i]] by {
            assert(text.skip(1)[i] == text[i + 1]);
        }
        lemma_char_pieces(piece, char_token, text.skip(1));
        assert(seq![text[0]] + text.skip(1) =~= text);
    } else {
        assert(toks =~= Seq::<Token>::empty());
        assert(text =~= Seq::<char>::empty());
    }
}

/// Law: encoding a text (its characters' tokens, merged by every rule in
/// turn) and spelling the result gives the text back, when each character's
/// token is valid and spells the character and each rule's replacement is
/// valid and spells its pair; every token of the encoding is valid, and the
/// encoding has no more tokens than the text has characters.
pub proof fn lemma_encoding_spells_text(
    piece: spec_fn(Token) -> Seq<char>,
    valid: spec_fn(Token) -> bool,
    char_token: spec_fn(char) -> Token,
    rules: Seq<Rule>,
    text: Seq<char>,
)
    requires
        forall|i: int| 0 <= i < text.len() ==> valid(char_token(#[trigger] text[i])) && piece(char_token(text[i])) == seq![text[i]],
        forall|i: int| 0 <= i < rules.len() ==> {
            let r = #[trigger] rules[i];
            &&& valid(r.replacement)
            &&& piece(r.replacement) == piece(r.a) + piece(r.b)
        },
    ensures
        concat_pieces(piece, apply_rules(rules, text.map_values(char_token))) == text,
        forall|i: int| 0 <= i < apply_rules(rules, text.map_values(char_token)).len()
            ==> valid(#[trigger] apply_rules(rules, text.map_values(char_token))[i]),
        apply_rules(rules, text.map_values(char_token)).len() <= text.len(),
{
    let toks = text.map_values(char_token);
    lemma_apply_rules_len(rules, toks);
    lemma_char_pieces(piece, char_token, text);
    assert forall|i: int| 0 <= i < toks.len() implies valid(#[trigger] toks[i]) by {
        assert(valid(char_token(text[i])));
    }
    lemma_rules_keep_spelling(piece, valid, rules, toks);
}

/// At every step of the deterministic run from `encs`, the most common pair
/// of tokens below the next token is the only pair with that count.
pub open spec fn unique_maxima(encs: Seq<Seq<Token>>, n: nat, vocab_size: nat, min_frequency: nat) -> bool
    decreases total_len(encs),
{
    if n == 0 || stops(encs, n, vocab_size, min_frequency) || best_count(encs, n) == 0 {
        true
    } else {
        proof {
            lemma_best_rule_shortens(encs, n);
        }
        &&& forall|a: Token, b: Token| a.0 < n && b.0 < n && #[trigger] corpus_pair_count(encs, a, b) == best_count(encs, n)
            ==> a == best_first(encs, n) && b == best_second(encs, n)
        &&& unique_maxima(apply_rule_all(best_rule(encs, n), encs), n + 1, vocab_size, min_frequency)
    }
}

/// Law: when every step's most common pair is unique, a run that merges
/// some most common pair at every step (the low-memory mode) learns exactly
/// the rules of the deterministic run.
pub proof fn lemma_max_run_unique(encs: Seq<Seq<Token>>, n: nat, rules: Seq<Rule>, vocab_size: nat, min_frequency: nat)
    requires
        min_frequency > 0,
        is_max_run(encs, n, rules, vocab_size, min_frequency),
        unique_maxima(encs, n, vocab_size, min_frequency),
    ensures
        rules == train_rules(encs, n, vocab_size, min_frequency),
    decreases total_len(encs),
{
    if rules.len() == 0 {
        assert(apply_rules_all(rules, encs) == encs);
        assert(stops(encs, n, vocab_size, min_frequency));
        assert(train_rules(encs, n, vocab_size, min_frequency) =~= rules);
    } else {
        let r = rules[0];
        assert(!stops(encs, n, vocab_size, min_frequency));
        assert(is_max_step(encs, n, r));
        assert(n > 0);
        assert(best_count(encs, n) >= min_frequency);
        lemma_best_index(encs, n);
        lemma_best_rule_shortens(encs, n);
        assert(corpus_pair_count(encs, r.a, r.b) == best_count(encs, n));
        assert(r == best_rule(encs, n));
        let next = apply_rule_all(r, encs);
        let rest = rules.skip(1);
        assert(apply_rules_all(rules, encs) == apply_rules_all(rest, next));
        assert(is_max_run(next, n + 1, rest, vocab_size, min_frequency)) by {
            assert(n + 1 + rest.len() == n + rules.len());
        }
        lemma_max_run_unique(next, n + 1, rest, vocab_size, min_frequency);
        assert(rules =~= seq![r] + rest);
    }
}

/// Law: a run with a vocabulary size `small` learns a prefix of the rules of
/// a run with the vocabulary size `large` (0: no limit), when `small` is set
/// and not above `large`.
pub proof fn lemma_train_rules_vocab_prefix(encs: Seq<Seq<Token>>, n: nat, small: nat, large: nat, min_frequency: nat)
    requires
        small > 0,
        large == 0 || small <= large,
    ensures
        train_rules(encs, n, small, min_frequency).is_prefix_of(train_rules(encs, n, large, min_frequency)),
    decreases total_len(encs),
{
    let r1 = train_rules(encs, n, small, min_frequency);
    let r2 = train_rules(encs, n, large, min_frequency);
    if n == 0 || stops(encs, n, small, min_frequency) || best_count(encs, n) == 0 {
        assert(r1 =~= Seq::<Rule>::empty());
    } else {
        lemma_best_rule_shortens(encs, n);
        let next = apply_rule_all(best_rule(encs, n), encs);
        lemma_train_rules_vocab_prefix(next, n + 1, small, large, min_frequency);
        let t1 = train_rules(next, n + 1, small, min_frequency);
        let t2 = train_rules(next, n + 1, large, min_frequency);
        assert(r1 == seq![best_rule(encs, n)] + t1);
        assert(r2 == seq![best_rule(encs, n)] + t2);
        assert(r1 =~= r2.subrange(0, r1.len() as int)) by {
            assert forall|i: int| 0 <= i < r1.len() implies r1[i] == r2[i] by {
                if i > 0 {
                    assert(r1[i] == t1[i - 1]);
                    assert(r2[i] == t2[i - 1]);
                    assert(t1[i - 1] == t2.subrange(0, t1.len() as int)[i - 1]);
                }
            }
        }
    }
}

/// Law: a run with a higher minimum frequency `high` learns a prefix of the
/// rules of a run with the minimum frequency `low`.
pub proof fn lemma_train_rules_frequency_prefix(encs: Seq<Seq<Token>>, n: nat, vocab_size: nat, low: nat, high: nat)
    requires
        low <= high,
    ensures
        train_rules(encs, n, vocab_size, high).is_prefix_of(train_rules(encs, n, vocab_size, low)),
    decreases total_len(encs),
{
    let r1 = train_rules(encs, n, vocab_size, high);
    let r2 = train_rules(encs, n, vocab_size, low);
    if n == 0 || stops(encs, n, vocab_size, high) || best_count(encs, n) == 0 {
        assert(r1 =~= Seq::<Rule>::empty());
    } else {
        lemma_best_rule_shortens(encs, n);
        let next = apply_rule_all(best_rule(encs, n), encs);
        lemma_train_rules_frequency_prefix(next, n + 1, vocab_size, low, high);
        let t1 = train_rules(next, n + 1, vocab_size, high);
        let t2 = train_rules(next, n + 1, vocab_size, low);
        assert(r1 == seq![best_rule(encs, n)] + t1);
        assert(r2 == seq![best_rule(encs, n)] + t2);
        assert(r1 =~= r2.subrange(0, r1.len() as int)) by {
            assert forall|i: int| 0 <= i < r1.len() implies r1[i] == r2[i] by {
                if i > 0 {
                    assert(r1[i] == t1[i - 1]);
                    assert(r2[i] == t2[i - 1]);
                    assert(t1[i - 1] == t2.subrange(0, t1.len() as int)[i - 1]);
                }
            }
        }
    }
}

/// The `i`-th rule of a run from the next token `n` replaces a pair of
/// tokens below `n + i` by the token `n + i`.
pub proof fn lemma_train_rules_shape(encs: Seq<Seq<Token>>, n: nat, vocab_size: nat, min_frequency: nat)
    ensures
        forall|i: int| 0 <= i < train_rules(encs, n, vocab_size, min_frequency).len() ==> {
            let r = #[trigger] train_rules(encs, n, vocab_size, min_frequency)[i];
            &&& r.replacement == Token((n + i) as usize)
            &&& r.a.0 < n + i
            &&& r.b.0 < n + i
        },
    decreases total_len(encs),
{
    let rules = train_rules(encs, n, vocab_size, min_frequency);
    if !(n == 0 || stops(encs, n, vocab_size, min_frequency) || best_count(encs, n) == 0) {
        lemma_best_rule_shortens(encs, n);
        lemma_best_index(encs, n);
        let next = apply_rule_all(best_rule(encs, n), encs);
        lemma_train_rules_shape(next, n + 1, vocab_size, min_frequency);
        let rest = train_rules(next, n + 1, vocab_size, min_frequency);
        assert(rules == seq![best_rule(encs, n)] + rest);
        assert forall|i: int| 0 <= i < rules.len() implies {
            let r = #[trigger] rules[i];
            &&& r.replacement == Token((n + i) as usize)
            &&& r.a.0 < n + i
            &&& r.b.0 < n + i
        } by {
            if i > 0 {
                assert(rules[i] == rest[i - 1]);
                assert(n + 1 + (i - 1) == n + i);
            }
        }
    }
}

/// The length of the array of counts when training with no vocabulary size,
/// from `d` characters, reaches the token `t`: `4 * d * d` at first, grown
/// fourfold at each token whose square it does not reach.
pub open spec fn count_table_len(d: nat, t: nat) -> nat
    decreases t,
{
    if t <= d {
        4 * d * d
    } else {
        let prev = count_table_len(d, (t - 1) as nat);
        if t * t > prev {
            4 * prev
        } else {
            prev
        }
    }
}

/// The array of counts never shrinks.
pub proof fn lemma_count_table_len_grows(d: nat, t1: nat, t2: nat)
    requires
        t1 <= t2,
    ensures
        count_table_len(d, t1) <= count_table_len(d, t2),
    decreases t2,
{
    if t1 < t2 {
        lemma_count_table_len_grows(d, t1, (t2 - 1) as nat);
        if t2 > d {
            let prev = count_table_len(d, (t2 - 1) as nat);
            assert(prev <= 4 * prev);
        }
    }
}

/// The array of counts at token `t` holds at least `t * t` entries.
pub proof fn lemma_count_table_len_square(d: nat, t: nat)
    requires
        d >= 1,
    ensures
        t * t <= count_table_len(d, t),
    decreases t,
{
    if t <= d {
        assert(t * t <= 4 * d * d) by (nonlinear_arith)
            requires t <= d;
    } else {
        let u = (t - 1) as nat;
        lemma_count_table_len_square(d, u);
        let prev = count_table_len(d, u);
        if t * t > prev {
            assert(t * t <= 4 * prev) by (nonlinear_arith)
                requires u * u <= prev, t == u + 1, u >= 1;
        }
    }
}

/// No rule's replacement is a token of its own pair or of an earlier
/// rule's pair.
pub open spec fn fresh_rules(rules: Seq<Rule>) -> bool {
    forall|i: int, j: int| 0 <= i <= j < rules.len() ==>
        (#[trigger] rules[j]).replacement != (#[trigger] rules[i]).a && rules[j].replacement != rules[i].b
}

/// Merge passes whose replacements avoid `x` and `y` create no occurrence of
/// the pair `x`, `y`.
proof fn lemma_apply_rules_keeps_no_pair(rules: Seq<Rule>, s: Seq<Token>, x: Token, y: Token)
    requires
        !pair_occurs(s, x, y),
        forall|j: int| 0 <= j < rules.len() ==> (#[trigger] rules[j]).replacement != x && rules[j].replacement != y,
    ensures
        !pair_occurs(apply_rules(rules, s), x, y),
    decreases rules.len(),
{
    if rules.len() > 0 {
        lemma_merge_keeps_no_pair(rules[0], s, x, y);
        assert forall|j: int| 0 <= j < rules.skip(1).len() implies (#[trigger] rules.skip(1)[j]).replacement != x && rules.skip(1)[j].replacement != y by {
            assert(rules.skip(1)[j] == rules[j + 1]);
        }
        lemma_apply_rules_keeps_no_pair(rules.skip(1), rules[0].merge_all(s), x, y);
    }
}

/// Law: after the merge passes of fresh rules, first to last, the pair of
/// no rule occurs any more.
pub proof fn lemma_apply_rules_leaves_no_pair(rules: Seq<Rule>, s: Seq<Token>)
    requires
        fresh_rules(rules),
    ensures
        forall|i: int| 0 <= i < rules.len() ==> !pair_occurs(apply_rules(rules, s), (#[trigger] rules[i]).a, rules[i].b),
    decreases rules.len(),
{
    if rules.len() > 0 {
        let r = rules[0];
        let rest = rules.skip(1);
        let next = r.merge_all(s);
        assert(fresh_rules(rest)) by {
            assert forall|i: int, j: int| 0 <= i <= j < rest.len() implies
                (#[trigger] rest[j]).replacement != (#[trigger] rest[i]).a && rest[j].replacement != rest[i].b by {
                assert(rest[j] == rules[j + 1] && rest[i] == rules[i + 1]);
            }
        }
        lemma_apply_rules_leaves_no_pair(rest, next);
        assert(r.replacement != r.a && r.replacement != r.b) by {
            assert(rules[0] == r);
        }
        lemma_merge_leaves_no_pair(r, s);
        assert forall|j: int| 0 <= j < rest.len() implies (#[trigger] rest[j]).replacement != r.a && rest[j].replacement != r.b by {
            assert(rest[j] == rules[j + 1]);
            assert(rules[0] == r);
        }
        lemma_apply_rules_keeps_no_pair(rest, next, r.a, r.b);
        assert forall|i: int| 0 <= i < rules.len() implies !pair_occurs(apply_rules(rules, s), (#[trigger] rules[i]).a, rules[i].b) by {
            if i > 0 {
                assert(rules[i] == rest[i - 1]);
            }
        }
    }
}

/// The rules of a run from the next token `n`, each replacing a pair of
/// smaller tokens by the next new token, are fresh.
pub proof fn lemma_numbered_rules_fresh(rules: Seq<Rule>, n: nat)
    requires
        forall|i: int| 0 <= i < rules.len() ==> {
            let r = #[trigger] rules[i];
            &&& r.replacement == Token((n + i) as usize)
            &&& r.a.0 < n + i
            &&& r.b.0 < n + i
        },
        n + rules.len() <= usize::MAX,
    ensures
        fresh_rules(rules),
{
    assert forall|i: int, j: int| 0 <= i <= j < rules.len() implies
        (#[trigger] rules[j]).replacement != (#[trigger] rules[i]).a && rules[j].replacement != rules[i].b by {
        assert(rules[j].replacement.0 == n + j);
    }
}

/// The `i`-th rule of a run that merges a most common pair at each step,
/// from the next token `n`, replaces a pair of tokens below `n + i` by the
/// token `n + i`.
pub proof fn lemma_max_prefix_shape(encs: Seq<Seq<Token>>, n: nat, rules: Seq<Rule>, vocab_size: nat, min_frequency: nat)
    requires
        is_max_prefix(encs, n, rules, vocab_size, min_frequency),
    ensures
        forall|i: int| 0 <= i < rules.len() ==> {
            let r = #[trigger] rules[i];
            &&& r.replacement == Token((n + i) as usize)
            &&& r.a.0 < n + i
            &&& r.b.0 < n + i
        },
    decreases rules.len(),
{
    if rules.len() > 0 {
        let rest = rules.skip(1);
        lemma_max_prefix_shape(apply_rule_all(rules[0], encs), n + 1, rest, vocab_size, min_frequency);
        assert forall|i: int| 0 <= i < rules.len() implies {
            let r = #[trigger] rules[i];
            &&& r.replacement == Token((n + i) as usize)
            &&& r.a.0 < n + i
            &&& r.b.0 < n + i
        } by {
            if i > 0 {
                assert(rules[i] == rest[i - 1]);
                assert(n + 1 + (i - 1) == n + i);
            }
        }
    }
}

} // verus!
