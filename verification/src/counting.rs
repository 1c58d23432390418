//! Counting adjacent token pairs, and choosing the most common one.

use vstd::prelude::*;
use crate::merge::{Token, pair_occurs};

verus! {

/// The number of positions `i` with `s[i] == a` and `s[i + 1] == b`
/// (overlapping occurrences are all counted).
pub open spec fn pair_count(s: Seq<Token>, a: Token, b: Token) -> nat
    decreases s.len(),
{
    if s.len() < 2 {
        0
    } else {
        pair_count(s.drop_last(), a, b) + if s[s.len() - 2] == a && s[s.len() - 1] == b {
            1nat
        } else {
            0nat
        }
    }
}

/// The number of occurrences of the pair `a`, `b` over all sequences of `encs`.
pub open spec fn corpus_pair_count(encs: Seq<Seq<Token>>, a: Token, b: Token) -> nat
    decreases encs.len(),
{
    if encs.len() == 0 {
        0
    } else {
        corpus_pair_count(encs.drop_last(), a, b) + pair_count(encs.last(), a, b)
    }
}

/// The first token of the pair that index `k` of an `n * n` table stands for.
pub open spec fn pair_first(k: int, n: nat) -> Token {
    Token((k % (n as int)) as usize)
}

/// The second token of the pair that index `k` of an `n * n` table stands for.
pub open spec fn pair_second(k: int, n: nat) -> Token {
    Token((k / (n as int)) as usize)
}

/// The table of pair counts: index `a + b * n` holds the count of the pair `a`, `b`.
pub open spec fn count_table(encs: Seq<Seq<Token>>, n: nat) -> Seq<int> {
    Seq::new(n * n, |k: int| corpus_pair_count(encs, pair_first(k, n), pair_second(k, n)) as int)
}

/// `k` is the last position of a maximum of `v`.
pub open spec fn is_last_max(v: Seq<int>, k: int) -> bool {
    &&& 0 <= k < v.len()
    &&& forall|j: int| 0 <= j < v.len() ==> #[trigger] v[j] <= v[k]
    &&& forall|j: int| k < j < v.len() ==> #[trigger] v[j] < v[k]
}

/// The values of a vector of counts, as integers.
pub open spec fn as_ints(v: Seq<usize>) -> Seq<int> {
    v.map_values(|x: usize| x as int)
}

/// The index of the most common pair: the last maximum of the count table.
pub open spec fn best_index(encs: Seq<Seq<Token>>, n: nat) -> int {
    choose|k: int| is_last_max(count_table(encs, n), k)
}

/// The first token of the most common pair.
pub open spec fn best_first(encs: Seq<Seq<Token>>, n: nat) -> Token {
    pair_first(best_index(encs, n), n)
}

/// The second token of the most common pair.
pub open spec fn best_second(encs: Seq<Seq<Token>>, n: nat) -> Token {
    pair_second(best_index(encs, n), n)
}

/// The highest count of any pair of tokens below `n` (0 when `n` is 0).
pub open spec fn best_count(encs: Seq<Seq<Token>>, n: nat) -> int {
    if n == 0 {
        0
    } else {
        count_table(encs, n)[best_index(encs, n)]
    }
}

/// Every token of every sequence is below `n`.
pub open spec fn tokens_below(encs: Seq<Seq<Token>>, n: nat) -> bool {
    forall|i: int, j: int| 0 <= i < encs.len() && 0 <= j < encs[i].len() ==> (#[trigger] encs[i][j]).0 < n
}

/// The total number of tokens.
pub open spec fn total_len(encs: Seq<Seq<Token>>) -> nat
    decreases encs.len(),
{
    if encs.len() == 0 {
        0
    } else {
        total_len(encs.drop_last()) + encs.last().len()
    }
}

/// A nonempty sequence has exactly one last maximum.
pub proof fn lemma_last_max_exists(v: Seq<int>)
    requires
        v.len() > 0,
    ensures
        exists|k: int| is_last_max(v, k),
    decreases v.len(),
{
    if v.len() == 1 {
        assert(is_last_max(v, 0));
    } else {
        let w = v.drop_last();
        lemma_last_max_exists(w);
        let k = choose|k: int| is_last_max(w, k);
        let last = v.len() - 1;
        assert(forall|j: int| 0 <= j < w.len() ==> w[j] == v[j]);
        assert(forall|j: int| 0 <= j < w.len() ==> #[trigger] v[j] <= w[k]);
        assert(forall|j: int| k < j < w.len() ==> #[trigger] v[j] < w[k]);
        if v[last] >= w[k] {
            assert(is_last_max(v, last));
        } else {
            assert(is_last_max(v, k));
        }
    }
}

pub proof fn lemma_last_max_unique(v: Seq<int>, k1: int, k2: int)
    requires
        is_last_max(v, k1),
        is_last_max(v, k2),
    ensures
        k1 == k2,
{
    if k1 < k2 {
        assert(v[k2] < v[k1]);
        assert(v[k1] <= v[k2]);
    } else if k2 < k1 {
        assert(v[k1] < v[k2]);
        assert(v[k2] <= v[k1]);
    }
}

/// The index `a + b * n` stands for the pair `a`, `b`.
pub proof fn lemma_pair_index(a: int, b: int, n: int)
    requires
        0 <= a < n,
        0 <= b,
    ensures
        (a + b * n) % n == a,
        (a + b * n) / n == b,
{
    vstd::arithmetic::div_mod::lemma_fundamental_div_mod_converse(a + b * n, n, b, a);
}

/// Every index of an `n * n` table is `first + second * n` for its pair.
pub proof fn lemma_index_of_pair(k: int, n: int)
    requires
        0 <= k < n * n,
        n > 0,
    ensures
        k == k % n + (k / n) * n,
        0 <= k % n < n,
        0 <= k / n < n,
{
    vstd::arithmetic::div_mod::lemma_fundamental_div_mod(k, n);
    assert(k == n * (k / n) + k % n);
    assert(n * (k / n) == (k / n) * n) by (nonlinear_arith);
    assert(0 <= k % n < n) by (nonlinear_arith)
        requires n > 0;
    assert(0 <= k / n) by (nonlinear_arith)
        requires n > 0, 0 <= k;
    assert(k / n < n) by (nonlinear_arith)
        requires n > 0, 0 <= k < n * n, k == n * (k / n) + k % n, 0 <= k % n;
}

/// The best index of a table of positive size lies in it and is its last maximum.
pub proof fn lemma_best_index(encs: Seq<Seq<Token>>, n: nat)
    requires
        n > 0,
    ensures
        is_last_max(count_table(encs, n), best_index(encs, n)),
        best_count(encs, n) == corpus_pair_count(encs, best_first(encs, n), best_second(encs, n)),
        best_first(encs, n).0 < n,
        best_second(encs, n).0 < n,
        forall|a: Token, b: Token| a.0 < n && b.0 < n ==> corpus_pair_count(encs, a, b) <= best_count(encs, n),
{
    let t = count_table(encs, n);
    assert(n * n > 0) by (nonlinear_arith) requires n > 0;
    lemma_last_max_exists(t);
    let k = best_index(encs, n);
    lemma_index_of_pair(k, n as int);
    assert forall|a: Token, b: Token| a.0 < n && b.0 < n implies corpus_pair_count(encs, a, b) <= best_count(encs, n) by {
        let j = a.0 + b.0 * n;
        assert(j < n * n) by (nonlinear_arith) requires a.0 < n, b.0 < n, j == a.0 + b.0 * n;
        lemma_pair_index(a.0 as int, b.0 as int, n as int);
        assert(pair_first(j, n) == a);
        assert(pair_second(j, n) == b);
        assert(t[j] <= t[k]);
    }
}

/// A pair cannot occur more often than there are positions.
pub proof fn lemma_pair_count_bound(s: Seq<Token>, a: Token, b: Token)
    ensures
        pair_count(s, a, b) <= s.len(),
        s.len() > 0 ==> pair_count(s, a, b) < s.len(),
    decreases s.len(),
{
    if s.len() >= 2 {
        lemma_pair_count_bound(s.drop_last(), a, b);
    }
}

/// A pair with a positive count occurs.
pub proof fn lemma_pair_count_occurs(s: Seq<Token>, a: Token, b: Token)
    requires
        pair_count(s, a, b) > 0,
    ensures
        pair_occurs(s, a, b),
    decreases s.len(),
{
    let l = s.len() - 2;
    if s[l] == a && s[l + 1] == b {
        assert(s[l] == a && s[l + 1] == b);
    } else {
        lemma_pair_count_occurs(s.drop_last(), a, b);
        let i = choose|i: int| #![trigger s.drop_last()[i]] 0 <= i < s.drop_last().len() - 1 && s.drop_last()[i] == a && s.drop_last()[i + 1] == b;
        assert(s[i] == a && s[i + 1] == b);
    }
}

/// Counting one more position of a prefix.
pub proof fn lemma_pair_count_step(s: Seq<Token>, i: int, a: Token, b: Token)
    requires
        0 <= i,
        i + 1 < s.len(),
    ensures
        pair_count(s.take(i + 2), a, b) == pair_count(s.take(i + 1), a, b) + if s[i] == a && s[i + 1] == b { 1nat } else { 0nat },
{
    assert(s.take(i + 2).drop_last() =~= s.take(i + 1));
}

pub proof fn lemma_total_len_push(encs: Seq<Seq<Token>>, e: Seq<Token>)
    ensures
        total_len(encs.push(e)) == total_len(encs) + e.len(),
{
    assert(encs.push(e).drop_last() =~= encs);
}

pub proof fn lemma_corpus_pair_count_push(encs: Seq<Seq<Token>>, e: Seq<Token>, a: Token, b: Token)
    ensures
        corpus_pair_count(encs.push(e), a, b) == corpus_pair_count(encs, a, b) + pair_count(e, a, b),
{
    assert(encs.push(e).drop_last() =~= encs);
}

/// A pair with a positive count over a corpus occurs in one of its sequences.
pub proof fn lemma_corpus_count_occurs(encs: Seq<Seq<Token>>, a: Token, b: Token) -> (i: int)
    requires
        corpus_pair_count(encs, a, b) > 0,
    ensures
        0 <= i < encs.len(),
        pair_occurs(encs[i], a, b),
    decreases encs.len(),
{
    if pair_count(encs.last(), a, b) > 0 {
        lemma_pair_count_occurs(encs.last(), a, b);
        (encs.len() - 1) as int
    } else {
        lemma_corpus_count_occurs(encs.drop_last(), a, b)
    }
}

/// The tokens of a prefix of a corpus are no more than those of the corpus.
pub proof fn lemma_total_len_prefix(encs: Seq<Seq<Token>>, j: int)
    requires
        0 <= j <= encs.len(),
    ensures
        total_len(encs.take(j)) <= total_len(encs),
    decreases encs.len(),
{
    if j < encs.len() {
        assert(encs.drop_last().take(j) =~= encs.take(j));
        lemma_total_len_prefix(encs.drop_last(), j);
    } else {
        assert(encs.take(j) =~= encs);
    }
}

/// A pair occurs no more often over a corpus than its length.
pub proof fn lemma_corpus_pair_count_bound(encs: Seq<Seq<Token>>, a: Token, b: Token)
    ensures
        corpus_pair_count(encs, a, b) <= total_len(encs),
    decreases encs.len(),
{
    if encs.len() > 0 {
        lemma_corpus_pair_count_bound(encs.drop_last(), a, b);
        lemma_pair_count_bound(encs.last(), a, b);
    }
}

/// A pair that occurs has a positive count.
pub proof fn lemma_occurs_counted(s: Seq<Token>, i: int)
    requires
        0 <= i < s.len() - 1,
    ensures
        pair_count(s, s[i], s[i + 1]) > 0,
    decreases s.len(),
{
    if i < s.len() - 2 {
        assert(s.drop_last()[i] == s[i] && s.drop_last()[i + 1] == s[i + 1]);
        lemma_occurs_counted(s.drop_last(), i);
    }
}

/// A pair that occurs in one sequence has a positive count over the corpus.
pub proof fn lemma_corpus_occurs_counted(encs: Seq<Seq<Token>>, w: int, a: Token, b: Token)
    requires
        0 <= w < encs.len(),
        pair_count(encs[w], a, b) > 0,
    ensures
        corpus_pair_count(encs, a, b) > 0,
    decreases encs.len(),
{
    if w < encs.len() - 1 {
        assert(encs.drop_last()[w] == encs[w]);
        lemma_corpus_occurs_counted(encs.drop_last(), w, a, b);
    }
}

/// When no sequence holds two tokens, no pair occurs and the best count is 0.
pub proof fn lemma_no_pair_best_count(encs: Seq<Seq<Token>>, n: nat)
    requires
        n > 0,
        forall|i: int| 0 <= i < encs.len() ==> #[trigger] encs[i].len() < 2,
    ensures
        best_count(encs, n) == 0,
{
    lemma_best_index(encs, n);
    let a = best_first(encs, n);
    let b = best_second(encs, n);
    if corpus_pair_count(encs, a, b) > 0 {
        let i = lemma_corpus_count_occurs(encs, a, b);
        assert(encs[i].len() < 2);
    }
}

} // verus!
