//! Characters and strings: the alphabet of a corpus, the rank of a
//! character in it, and small string operations.

use vstd::prelude::*;
use itertools::Itertools;
use vstd::std_specs::iter::IteratorSpec;
use crate::merge::{Token, concat_pieces, lemma_concat_pieces_append};

verus! {

/// All characters of a corpus, text after text.
pub open spec fn corpus_text(corpus: Seq<Seq<char>>) -> Seq<char>
    decreases corpus.len(),
{
    if corpus.len() == 0 {
        Seq::<char>::empty()
    } else {
        corpus_text(corpus.drop_last()) + corpus.last()
    }
}

/// The set of characters that occur in a corpus.
pub open spec fn corpus_chars(corpus: Seq<Seq<char>>) -> Set<char> {
    corpus_text(corpus).to_set()
}

/// The number of characters of `chars` that come before `c` (by code point).
pub open spec fn char_rank(chars: Set<char>, c: char) -> nat {
    chars.filter(|d: char| (d as u32) < (c as u32)).len()
}

/// The characters of `v` increase strictly by code point.
pub open spec fn strictly_increasing(v: Seq<char>) -> bool {
    forall|i: int, j: int| 0 <= i < j < v.len() ==> (#[trigger] v[i] as u32) < (#[trigger] v[j] as u32)
}

/// The views of a vector of strings.
pub open spec fn string_views(v: Seq<String>) -> Seq<Seq<char>> {
    v.map_values(|s: String| s@)
}

/// `parts` joined with `sep` between each two of them.
pub open spec fn joined(parts: Seq<Seq<char>>, sep: Seq<char>) -> Seq<char>
    decreases parts.len(),
{
    if parts.len() == 0 {
        Seq::<char>::empty()
    } else if parts.len() == 1 {
        parts[0]
    } else {
        joined(parts.drop_last(), sep) + sep + parts.last()
    }
}

pub proof fn lemma_corpus_text_push(corpus: Seq<Seq<char>>, t: Seq<char>)
    ensures
        corpus_text(corpus.push(t)) == corpus_text(corpus) + t,
{
    assert(corpus.push(t).drop_last() =~= corpus);
}

/// In a strictly increasing sequence, the rank of each element in the set of
/// its elements is its position.
pub proof fn lemma_rank_is_position(v: Seq<char>, i: int)
    requires
        strictly_increasing(v),
        0 <= i < v.len(),
    ensures
        char_rank(v.to_set(), v[i]) == i,
{
    let below = v.to_set().filter(|d: char| (d as u32) < (v[i] as u32));
    let prefix = v.take(i);
    assert forall|d: char| below.contains(d) <==> prefix.to_set().contains(d) by {
        if below.contains(d) {
            let j = choose|j: int| 0 <= j < v.len() && v[j] == d;
            if j >= i {
                if j > i {
                    assert((v[i] as u32) < (v[j] as u32));
                }
                assert(false);
            }
            assert(prefix[j] == d);
        }
        if prefix.to_set().contains(d) {
            let j = choose|j: int| 0 <= j < prefix.len() && prefix[j] == d;
            assert(v[j] == d);
            assert((v[j] as u32) < (v[i] as u32));
        }
    }
    assert(below =~= prefix.to_set());
    assert(prefix.no_duplicates()) by {
        assert forall|a: int, b: int| 0 <= a < prefix.len() && 0 <= b < prefix.len() && a != b implies prefix[a] != prefix[b] by {
            if a < b {
                assert((v[a] as u32) < (v[b] as u32));
            } else {
                assert((v[b] as u32) < (v[a] as u32));
            }
        }
    }
    prefix.unique_seq_to_set();
}

/// Distinct characters have distinct code points.
pub proof fn lemma_char_code_injective(a: char, b: char)
    requires
        a != b,
    ensures
        a as u32 != b as u32,
{
}

/// Joining the pieces of tokens with nothing between them spells the tokens.
pub proof fn lemma_joined_pieces(piece: spec_fn(Token) -> Seq<char>, toks: Seq<Token>)
    ensures
        joined(toks.map_values(piece), Seq::<char>::empty()) == concat_pieces(piece, toks),
    decreases toks.len(),
{
    let parts = toks.map_values(piece);
    if toks.len() == 0 {
    } else if toks.len() == 1 {
        assert(toks.skip(1) =~= Seq::<Token>::empty());
        assert(concat_pieces(piece, Seq::<Token>::empty()) == Seq::<char>::empty());
        assert(concat_pieces(piece, toks) == piece(toks[0]) + Seq::<char>::empty());
        assert(piece(toks[0]) + Seq::<char>::empty() =~= piece(toks[0]));
    } else {
        let init = toks.drop_last();
        lemma_joined_pieces(piece, init);
        assert(parts.drop_last() =~= init.map_values(piece));
        assert(toks =~= init + seq![toks.last()]);
        lemma_concat_pieces_append(piece, init, seq![toks.last()]);
        assert(seq![toks.last()].skip(1) =~= Seq::<Token>::empty());
        assert(concat_pieces(piece, Seq::<Token>::empty()) == Seq::<char>::empty());
        assert(concat_pieces(piece, seq![toks.last()]) == piece(toks.last()) + Seq::<char>::empty());
        assert(piece(toks.last()) + Seq::<char>::empty() =~= piece(toks.last()));
        let j = joined(init.map_values(piece), Seq::<char>::empty());
        assert(j + Seq::<char>::empty() =~= j);
    }
}

/// The characters of a string, in order.
pub fn chars_of(text: &String) -> (v: Vec<char>)
    ensures
        v@ == text@,
{
    broadcast use vstd::string::group_string_axioms;
    let mut v: Vec<char> = Vec::new();
    let mut it = text.chars();
    loop
        invariant
            v@ + it.remaining() == text@,
        ensures
            v@ == text@,
        decreases text@.len() - v@.len(),
    {
        let ghost before = it.remaining();
        match it.next() {
            Some(c) => {
                v.push(c);
                assert(v@ + it.remaining() =~= text@) by {
                    assert(before =~= seq![c] + it.remaining());
                }
            },
            None => {
                assert(it.remaining() =~= Seq::<char>::empty());
                assert(v@ + Seq::<char>::empty() =~= v@);
                break;
            },
        }
    }
    v
}

/// A string of the one character `c`.
pub fn char_to_string(c: char) -> (s: String)
    ensures
        s@ == seq![c],
{
    let mut v: Vec<char> = Vec::new();
    v.push(c);
    assert(v@ =~= seq![c]);
    string_from_chars(&v)
}

/// The concatenation of two strings.
pub fn concat_strings(a: &String, b: &String) -> (s: String)
    ensures
        s@ == a@ + b@,
{
    let mut s = a.clone();
    s.append(b.as_str());
    s
}

/// The characters of `chars` without repeats, in order of first occurrence
/// (`Itertools::unique`).
#[verifier::external_body]
fn unique_chars(chars: Vec<char>) -> (res: Vec<char>)
    ensures
        res@.no_duplicates(),
        res@.to_set() == chars@.to_set(),
        forall|i: int, j: int| 0 <= i < j < res@.len() ==>
            (#[trigger] chars@.index_of_first(res@[i])).unwrap() < (#[trigger] chars@.index_of_first(res@[j])).unwrap(),
{
    chars.into_iter().unique().collect()
}

/// The characters of `chars` in ascending order (`Itertools::sorted`).
#[verifier::external_body]
fn sorted_chars(chars: Vec<char>) -> (res: Vec<char>)
    ensures
        res@.to_multiset() == chars@.to_multiset(),
        forall|i: int, j: int| 0 <= i < j < res@.len() ==> (#[trigger] res@[i] as u32) <= (#[trigger] res@[j] as u32),
{
    chars.into_iter().sorted().collect()
}

/// The distinct characters of `chars`, by ascending code point.
pub fn distinct_sorted(chars: Vec<char>) -> (res: Vec<char>)
    ensures
        strictly_increasing(res@),
        res@.to_set() == chars@.to_set(),
{
    broadcast use vstd::seq_lib::group_to_multiset_ensures;
    let ghost all = chars@;
    let u = unique_chars(chars);
    let ghost uv = u@;
    let res = sorted_chars(u);
    proof {
        uv.lemma_multiset_has_no_duplicates();
        assert forall|x: char| res@.to_multiset().contains(x) implies res@.to_multiset().count(x) == 1 by {
            assert(uv.to_multiset().contains(x));
        }
        res@.lemma_multiset_has_no_duplicates_conv();
        assert forall|i: int, j: int| 0 <= i < j < res@.len() implies (#[trigger] res@[i] as u32) < (#[trigger] res@[j] as u32) by {
            assert(res@[i] != res@[j]);
            lemma_char_code_injective(res@[i], res@[j]);
            assert((res@[i] as u32) <= (res@[j] as u32));
        }
        assert forall|x: char| res@.to_set().contains(x) <==> uv.to_set().contains(x) by {
            assert(res@.contains(x) <==> res@.to_multiset().count(x) > 0);
            assert(uv.contains(x) <==> uv.to_multiset().count(x) > 0);
        }
        assert(res@.to_set() =~= uv.to_set());
    }
    res
}

/// The string of the characters of `v` (`String::from_iter`).
#[verifier::external_body]
pub(crate) fn string_from_chars(v: &Vec<char>) -> (s: String)
    ensures
        s@ == v@,
{
    v.iter().collect::<String>()
}

/// `parts` joined with `sep` (`Itertools::join`).
#[verifier::external_body]
pub(crate) fn join_strings(parts: &Vec<String>, sep: &str) -> (s: String)
    ensures
        s@ == joined(string_views(parts@), sep@),
{
    parts.iter().join(sep)
}

/// `table` gives each character of `sorted` (by code point) its position.
pub open spec fn is_char_table(table: Map<u32, Token>, sorted: Seq<char>) -> bool {
    &&& forall|key: u32| #[trigger] table.contains_key(key) <==> exists|k: int| 0 <= k < sorted.len() && sorted[k] as u32 == key
    &&& forall|k: int| 0 <= k < sorted.len() ==> #[trigger] table[sorted[k] as u32] == Token(k as usize)
}

/// In a strictly increasing sequence, an element's position is where it occurs.
pub proof fn lemma_increasing_index(sorted: Seq<char>, k: int, c: char)
    requires
        strictly_increasing(sorted),
        0 <= k < sorted.len(),
        sorted[k] as u32 == c as u32,
    ensures
        sorted[k] == c,
        sorted.contains(c),
        sorted.index_of(c) == k,
{
    if sorted[k] != c {
        lemma_char_code_injective(sorted[k], c);
    }
    assert(sorted.contains(c));
    let k2 = sorted.index_of(c);
    if k2 < k {
        assert((sorted[k2] as u32) < (sorted[k] as u32));
    } else if k < k2 {
        assert((sorted[k] as u32) < (sorted[k2] as u32));
    }
}

/// A character table over the alphabet `sorted` knows exactly its characters,
/// and gives each its rank.
pub proof fn lemma_char_table(table: Map<u32, Token>, sorted: Seq<char>, c: char)
    requires
        is_char_table(table, sorted),
        strictly_increasing(sorted),
    ensures
        table.contains_key(c as u32) <==> sorted.contains(c),
        sorted.contains(c) ==> {
            &&& 0 <= sorted.index_of(c) < sorted.len()
            &&& table[c as u32] == Token(sorted.index_of(c) as usize)
            &&& char_rank(sorted.to_set(), c) == sorted.index_of(c)
        },
{
    if table.contains_key(c as u32) {
        let k = choose|k: int| 0 <= k < sorted.len() && sorted[k] as u32 == c as u32;
        lemma_increasing_index(sorted, k, c);
    }
    if sorted.contains(c) {
        let k = sorted.index_of(c);
        assert(sorted[k] == c);
        assert(table.contains_key(sorted[k] as u32));
        lemma_rank_is_position(sorted, k);
    }
}

/// A character table over the alphabet `sorted` has exactly the code points
/// of its characters as keys.
pub proof fn lemma_char_table_dom(table: Map<u32, Token>, sorted: Seq<char>)
    requires
        is_char_table(table, sorted),
    ensures
        table.dom() == sorted.to_set().map(|c: char| c as u32),
{
    let codes = sorted.to_set().map(|c: char| c as u32);
    assert forall|key: u32| table.dom().contains(key) <==> codes.contains(key) by {
        if table.contains_key(key) {
            let k = choose|k: int| 0 <= k < sorted.len() && sorted[k] as u32 == key;
            assert(sorted.to_set().contains(sorted[k]));
        }
        if codes.contains(key) {
            let c = choose|c: char| sorted.to_set().contains(c) && c as u32 == key;
            assert(sorted.contains(c));
            let k = sorted.index_of(c);
            assert(sorted[k] as u32 == key);
        }
    }
    assert(table.dom() =~= codes);
}

/// `text` without its carriage returns.
pub open spec fn without_carriage_returns(text: Seq<char>) -> Seq<char> {
    text.filter(|c: char| c != '\r')
}

/// `text` without its carriage returns (what a corpus file is read as).
pub fn remove_carriage_returns(text: &String) -> (res: String)
    ensures
        res@ == without_carriage_returns(text@),
{
    let chars = chars_of(text);
    let mut kept: Vec<char> = Vec::new();
    let mut i: usize = 0;
    while i < chars.len()
        invariant
            chars@ == text@,
            i <= chars.len(),
            kept@ == without_carriage_returns(chars@.take(i as int)),
        decreases chars.len() - i,
    {
        let c = chars[i];
        proof {
            reveal_with_fuel(Seq::<char>::filter, 1);
            assert(chars@.take(i + 1).drop_last() =~= chars@.take(i as int));
        }
        if c != '\r' {
            kept.push(c);
        }
        assert(kept@ =~= without_carriage_returns(chars@.take(i + 1)));
        i += 1;
    }
    assert(chars@.take(i as int) =~= text@);
    string_from_chars(&kept)
}

/// A strictly increasing sequence has as many elements as its set.
pub proof fn lemma_increasing_set_len(v: Seq<char>)
    requires
        strictly_increasing(v),
    ensures
        v.no_duplicates(),
        v.to_set().len() == v.len(),
{
    assert forall|x: int, y: int| 0 <= x < v.len() && 0 <= y < v.len() && x != y implies v[x] != v[y] by {
        if x < y {
            assert((v[x] as u32) < (v[y] as u32));
        } else {
            assert((v[y] as u32) < (v[x] as u32));
        }
    }
    v.unique_seq_to_set();
}

} // verus!
