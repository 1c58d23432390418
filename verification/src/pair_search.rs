//! Finding the most common pair of adjacent tokens over a corpus: in an
//! array of counts, or in a hash table.

use vstd::prelude::*;
use std::collections::HashMap;
use rayon::iter::{IntoParallelRefIterator, IntoParallelIterator, IndexedParallelIterator, ParallelIterator};
use rustc_hash::FxBuildHasher;
use crate::merge::Token;
use crate::corpus::{BPETokenizer, new_fx_map};
use crate::counting::{count_table, pair_count, corpus_pair_count, pair_first, pair_second, tokens_below, total_len, as_ints, is_last_max, lemma_pair_index, lemma_index_of_pair, lemma_pair_count_bound, lemma_pair_count_step, lemma_corpus_pair_count_push, lemma_total_len_push, lemma_total_len_prefix, lemma_corpus_pair_count_bound, lemma_occurs_counted, lemma_corpus_occurs_counted};
use crate::training::has_pair;

verus! {

/// The views of a vector of token vectors.
pub open spec fn encodings_view(v: Seq<Vec<Token>>) -> Seq<Seq<Token>> {
    v.map_values(|e: Vec<Token>| e@)
}

/// The position of the last maximum of `counts` and that maximum, `None`
/// when `counts` is empty (rayon's `max_by_key` over the enumerated
/// counts, which keeps the later of two equal keys).
#[verifier::external_body]
fn last_max_count(counts: &Vec<usize>) -> (res: Option<(usize, usize)>)
    ensures
        res is None <==> counts@.len() == 0,
        res matches Some((k, c)) ==> is_last_max(as_ints(counts@), k as int) && c == counts@[k as int],
{
    counts.par_iter().enumerate().max_by_key(|&(_, count)| count).map(|(i, &c)| (i, c))
}

/// The count of the pair `a`, `b`, if the table has one (`HashMap::get`).
#[verifier::external_body]
fn pair_table_get(m: &HashMap<(usize, usize), usize, FxBuildHasher>, a: usize, b: usize) -> (res: Option<usize>)
    ensures
        res == if m@.contains_key((a, b)) { Some(m@[(a, b)]) } else { None::<usize> },
{
    m.get(&(a, b)).copied()
}

/// Sets the count of the pair `a`, `b` (`HashMap::insert`).
#[verifier::external_body]
fn pair_table_insert(m: &mut HashMap<(usize, usize), usize, FxBuildHasher>, a: usize, b: usize, count: usize)
    ensures
        final(m)@ == old(m)@.insert((a, b), count),
{
    m.insert((a, b), count);
}

/// Some entry with the highest count, `None` when the table is empty
/// (rayon's `max_by_key` over the table; which of equally high entries
/// comes out depends on the order in which the table is walked).
#[verifier::external_body]
fn max_pair_count(m: HashMap<(usize, usize), usize, FxBuildHasher>) -> (res: Option<((usize, usize), usize)>)
    ensures
        res is None <==> forall|p: (usize, usize)| !(#[trigger] m@.contains_key(p)),
        res matches Some((k, c)) ==> {
            &&& m@.contains_key(k)
            &&& m@[k] == c
            &&& forall|k2: (usize, usize)| #[trigger] m@.contains_key(k2) ==> m@[k2] <= c
        },
{
    m.into_par_iter().max_by_key(|&(_, count)| count)
}

/// Whether some sequence of `encodings` holds at least two tokens.
pub(crate) fn any_pair(encodings: &Vec<Vec<Token>>) -> (res: bool)
    ensures
        res == has_pair(encodings_view(encodings@)),
{
    let ghost encs = encodings_view(encodings@);
    let mut j: usize = 0;
    while j < encodings.len()
        invariant
            encs == encodings_view(encodings@),
            j <= encodings.len(),
            forall|i: int| 0 <= i < j ==> #[trigger] encs[i].len() < 2,
        decreases encodings.len() - j,
    {
        assert(encs[j as int] == encodings@[j as int]@);
        if encodings[j].len() >= 2 {
            return true;
        }
        j += 1;
    }
    false
}

impl BPETokenizer {
    /// The most common pair of adjacent tokens over `encodings`, all below `n`,
    /// and its count, counted into the first `n * n` entries of `counts`; the
    /// pair read from the last maximum of all of `counts`.
    pub(crate) fn most_common_pair(encodings: &Vec<Vec<Token>>, n: usize, counts: &mut Vec<usize>) -> (res: ((Token, Token), usize))
        requires
            n >= 1,
            n * n <= old(counts)@.len(),
            tokens_below(encodings_view(encodings@), n as nat),
            total_len(encodings_view(encodings@)) <= usize::MAX,
        ensures
            final(counts)@.len() == old(counts)@.len(),
            forall|k: int| 0 <= k < n * n ==> #[trigger] as_ints(final(counts)@)[k] == count_table(encodings_view(encodings@), n as nat)[k],
            forall|k: int| n * n <= k < old(counts)@.len() ==> #[trigger] final(counts)@[k] == old(counts)@[k],
            exists|i: int| is_last_max(as_ints(final(counts)@), i) && res == ((pair_first(i, n as nat), pair_second(i, n as nat)), final(counts)@[i]),
    {
        let ghost encs = encodings_view(encodings@);
        let ghost old_counts = counts@;
        let counts_len = counts.len();
        assert(n * n <= counts_len);
        let nn = n * n;
        let mut k: usize = 0;
        while k < nn
            invariant
                nn == n * n,
                k <= nn,
                counts@.len() == old_counts.len(),
                nn <= counts@.len(),
                forall|q: int| 0 <= q < k ==> #[trigger] counts@[q] == 0,
                forall|q: int| nn <= q < counts@.len() ==> #[trigger] counts@[q] == old_counts[q],
            decreases nn - k,
        {
            counts[k] = 0;
            k += 1;
        }
        let mut j: usize = 0;
        while j < encodings.len()
            invariant
                encs == encodings_view(encodings@),
                nn == n * n,
                n >= 1,
                j <= encodings.len(),
                counts@.len() == old_counts.len(),
                nn <= counts@.len(),
                tokens_below(encs, n as nat),
                total_len(encs) <= usize::MAX,
                forall|q: int| 0 <= q < nn ==> #[trigger] counts@[q] == corpus_pair_count(encs.take(j as int), pair_first(q, n as nat), pair_second(q, n as nat)),
                forall|q: int| nn <= q < counts@.len() ==> #[trigger] counts@[q] == old_counts[q],
            decreases encodings.len() - j,
        {
            let e = &encodings[j];
            let ghost es = e@;
            assert(encs[j as int] == es);
            proof {
                assert(encs.take(j + 1) =~= encs.take(j as int).push(es));
                lemma_total_len_push(encs.take(j as int), es);
                lemma_total_len_prefix(encs, j + 1);
            }
            if e.len() >= 2 {
                let last = e.len() - 1;
                let mut i: usize = 0;
                assert forall|q: int| 0 <= q < nn implies #[trigger] counts@[q] == corpus_pair_count(encs.take(j as int), pair_first(q, n as nat), pair_second(q, n as nat)) + pair_count(es.take(1), pair_first(q, n as nat), pair_second(q, n as nat)) by {
                }
                while i < last
                    invariant
                        encs == encodings_view(encodings@),
                        es == encs[j as int],
                        e@ == es,
                        last == es.len() - 1,
                        j < encs.len(),
                        nn == n * n,
                        n >= 1,
                        i <= last,
                        counts@.len() == old_counts.len(),
                        nn <= counts@.len(),
                        tokens_below(encs, n as nat),
                        total_len(encs.take(j as int)) + es.len() <= usize::MAX,
                        forall|q: int| 0 <= q < nn ==> #[trigger] counts@[q] == corpus_pair_count(encs.take(j as int), pair_first(q, n as nat), pair_second(q, n as nat)) + pair_count(es.take(i + 1), pair_first(q, n as nat), pair_second(q, n as nat)),
                        forall|q: int| nn <= q < counts@.len() ==> #[trigger] counts@[q] == old_counts[q],
                    decreases last - i,
                {
                    let a = e[i].0;
                    let b = e[i + 1].0;
                    assert(a < n && b < n) by {
                        assert(encs[j as int][i as int] == es[i as int]);
                        assert(encs[j as int][i + 1] == es[i + 1]);
                    }
                    assert(a + b * n < n * n) by (nonlinear_arith)
                        requires a < n, b < n;
                    let idx = a + b * n;
                    proof {
                        lemma_pair_index(a as int, b as int, n as int);
                        lemma_pair_count_bound(es.take(i + 1), es[i as int], es[i + 1]);
                        lemma_corpus_pair_count_bound(encs.take(j as int), es[i as int], es[i + 1]);
                        lemma_pair_count_step(es, i as int, es[i as int], es[i + 1]);
                    }
                    counts[idx] = counts[idx] + 1;
                    assert forall|q: int| 0 <= q < nn implies #[trigger] counts@[q] == corpus_pair_count(encs.take(j as int), pair_first(q, n as nat), pair_second(q, n as nat)) + pair_count(es.take(i + 2), pair_first(q, n as nat), pair_second(q, n as nat)) by {
                        lemma_pair_count_step(es, i as int, pair_first(q, n as nat), pair_second(q, n as nat));
                        if q != idx {
                            lemma_index_of_pair(q, n as int);
                            if pair_first(q, n as nat) == es[i as int] && pair_second(q, n as nat) == es[i + 1] {
                                assert(q == a + b * n);
                            }
                        }
                    }
                    i += 1;
                }
                assert(es.take(i + 1) =~= es);
            }
            assert forall|q: int| 0 <= q < nn implies #[trigger] counts@[q] == corpus_pair_count(encs.take(j + 1), pair_first(q, n as nat), pair_second(q, n as nat)) by {
                lemma_corpus_pair_count_push(encs.take(j as int), es, pair_first(q, n as nat), pair_second(q, n as nat));
            }
            j += 1;
        }
        assert(encs.take(j as int) =~= encs);
        assert(nn > 0) by (nonlinear_arith)
            requires n >= 1, nn == n * n;
        let (i, c) = last_max_count(counts).unwrap();
        let res = ((Token(i % n), Token(i / n)), c);
        assert(is_last_max(as_ints(counts@), i as int) && res == ((pair_first(i as int, n as nat), pair_second(i as int, n as nat)), counts@[i as int]));
        res
    }

    /// A most common pair of adjacent tokens over `encodings` and its count,
    /// counted in a hash table; which of equally common pairs comes out is not
    /// fixed.
    pub(crate) fn most_common_pair_low_memory(encodings: &Vec<Vec<Token>>) -> (res: ((Token, Token), usize))
        requires
            has_pair(encodings_view(encodings@)),
            total_len(encodings_view(encodings@)) <= usize::MAX,
        ensures
            res.1 == corpus_pair_count(encodings_view(encodings@), res.0.0, res.0.1),
            res.1 > 0,
            forall|a: Token, b: Token| #[trigger] corpus_pair_count(encodings_view(encodings@), a, b) <= res.1,
    {
        let ghost encs = encodings_view(encodings@);
        let mut counts = new_fx_map();
        let mut j: usize = 0;
        while j < encodings.len()
            invariant
                encs == encodings_view(encodings@),
                j <= encodings.len(),
                total_len(encs) <= usize::MAX,
                forall|p: (usize, usize)| #[trigger] counts@.contains_key(p) <==> corpus_pair_count(encs.take(j as int), Token(p.0), Token(p.1)) > 0,
                forall|p: (usize, usize)| #[trigger] counts@.contains_key(p) ==> counts@[p] == corpus_pair_count(encs.take(j as int), Token(p.0), Token(p.1)),
            decreases encodings.len() - j,
        {
            let e = &encodings[j];
            let ghost es = e@;
            assert(encs[j as int] == es);
            proof {
                assert(encs.take(j + 1) =~= encs.take(j as int).push(es));
                lemma_total_len_push(encs.take(j as int), es);
                lemma_total_len_prefix(encs, j + 1);
            }
            if e.len() >= 2 {
                let last = e.len() - 1;
                let mut i: usize = 0;
                while i < last
                    invariant
                        encs == encodings_view(encodings@),
                        es == encs[j as int],
                        e@ == es,
                        last == es.len() - 1,
                        j < encs.len(),
                        i <= last,
                        total_len(encs.take(j as int)) + es.len() <= usize::MAX,
                        forall|p: (usize, usize)| #[trigger] counts@.contains_key(p) <==>
                            corpus_pair_count(encs.take(j as int), Token(p.0), Token(p.1)) + pair_count(es.take(i + 1), Token(p.0), Token(p.1)) > 0,
                        forall|p: (usize, usize)| #[trigger] counts@.contains_key(p) ==>
                            counts@[p] == corpus_pair_count(encs.take(j as int), Token(p.0), Token(p.1)) + pair_count(es.take(i + 1), Token(p.0), Token(p.1)),
                    decreases last - i,
                {
                    let a = e[i].0;
                    let b = e[i + 1].0;
                    proof {
                        lemma_pair_count_bound(es.take(i + 1), Token(a), Token(b));
                        lemma_corpus_pair_count_bound(encs.take(j as int), Token(a), Token(b));
                    }
                    let count = match pair_table_get(&counts, a, b) {
                        Some(c) => c + 1,
                        None => 1,
                    };
                    pair_table_insert(&mut counts, a, b, count);
                    assert forall|p: (usize, usize)| #[trigger] counts@.contains_key(p) <==>
                        corpus_pair_count(encs.take(j as int), Token(p.0), Token(p.1)) + pair_count(es.take(i + 2), Token(p.0), Token(p.1)) > 0 by {
                        lemma_pair_count_step(es, i as int, Token(p.0), Token(p.1));
                    }
                    assert forall|p: (usize, usize)| #[trigger] counts@.contains_key(p) implies
                        counts@[p] == corpus_pair_count(encs.take(j as int), Token(p.0), Token(p.1)) + pair_count(es.take(i + 2), Token(p.0), Token(p.1)) by {
                        lemma_pair_count_step(es, i as int, Token(p.0), Token(p.1));
                    }
                    i += 1;
                }
                assert(es.take(i + 1) =~= es);
            } else {
                assert forall|p: (usize, usize)| pair_count(es, Token(p.0), Token(p.1)) == 0 by {}
            }
            assert forall|p: (usize, usize)| corpus_pair_count(encs.take(j + 1), Token(p.0), Token(p.1)) == corpus_pair_count(encs.take(j as int), Token(p.0), Token(p.1)) + pair_count(es, Token(p.0), Token(p.1)) by {
                lemma_corpus_pair_count_push(encs.take(j as int), es, Token(p.0), Token(p.1));
            }
            j += 1;
        }
        assert(encs.take(j as int) =~= encs);
        let ghost w = choose|w: int| 0 <= w < encs.len() && #[trigger] encs[w].len() >= 2;
        proof {
            lemma_occurs_counted(encs[w], 0);
            lemma_corpus_occurs_counted(encs, w, encs[w][0], encs[w][1]);
            assert(counts@.contains_key((encs[w][0].0, encs[w][1].0)));
        }
        let ghost final_counts = counts@;
        match max_pair_count(counts) {
            Some((k, c)) => {
                proof {
                    assert(final_counts.contains_key(k));
                    assert forall|a: Token, b: Token| #[trigger] corpus_pair_count(encs, a, b) <= c by {
                        if corpus_pair_count(encs, a, b) > 0 {
                            assert(final_counts.contains_key((a.0, b.0)));
                        }
                    }
                }
                ((Token(k.0), Token(k.1)), c)
            },
            None => {
                proof {
                    assert(final_counts.contains_key((encs[w][0].0, encs[w][1].0)));
                }
                vstd::pervasive::unreached()
            },
        }
    }
}

} // verus!
