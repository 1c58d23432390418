//! Tokens, merge rules and the greedy left-to-right merge pass.

use vstd::prelude::*;

verus! {

/// A token: an index into a tokenizer's vocabulary.
#[derive(Debug, Clone, Copy, PartialEq, Eq, Hash, Structural)]
pub struct Token(pub usize);

/// A merge rule: every adjacent pair `a`, `b` is replaced by `replacement`.
#[derive(Debug, Clone, Copy)]
pub struct Rule {
    pub a: Token,
    pub b: Token,
    pub replacement: Token,
}

/// Moves a vector of tokens into a boxed slice (`Vec::into_boxed_slice`).
#[verifier::external_body]
pub(crate) fn into_boxed_tokens(v: Vec<Token>) -> (b: Box<[Token]>)
    ensures
        b@ == v@,
{
    v.into_boxed_slice()
}

impl Rule {
    /// The result of one greedy left-to-right pass of this rule over `s`:
    /// an occurrence of `a` followed by `b` is replaced by `replacement`, and
    /// scanning continues after the replaced pair.
    pub open spec fn merge_all(self, s: Seq<Token>) -> Seq<Token>
        decreases s.len(),
    {
        if s.len() == 0 {
            Seq::<Token>::empty()
        } else if s.len() >= 2 && s[0] == self.a && s[1] == self.b {
            seq![self.replacement] + self.merge_all(s.skip(2))
        } else {
            seq![s[0]] + self.merge_all(s.skip(1))
        }
    }

    /// `s` with every `replacement` spelled out again as `a` followed by `b`.
    pub open spec fn unmerge(self, s: Seq<Token>) -> Seq<Token>
        decreases s.len(),
    {
        if s.len() == 0 {
            Seq::<Token>::empty()
        } else if s[0] == self.replacement {
            seq![self.a, self.b] + self.unmerge(s.skip(1))
        } else {
            seq![s[0]] + self.unmerge(s.skip(1))
        }
    }

    pub fn new(a: Token, b: Token, replacement: Token) -> (rule: Self)
        ensures
            rule.a == a,
            rule.b == b,
            rule.replacement == replacement,
    {
        Rule { a, b, replacement }
    }

    /// Appends to `out` the merge pass of this rule over `tokens`.
    pub fn apply_into(&self, tokens: &Vec<Token>, out: &mut Vec<Token>)
        ensures
            final(out)@ == old(out)@ + self.merge_all(tokens@),
    {
        let ghost start = out@;
        let mut i: usize = 0;
        assert(tokens@.skip(0) =~= tokens@);
        while i < tokens.len()
            invariant
                i <= tokens.len(),
                out@ + self.merge_all(tokens@.skip(i as int)) == start + self.merge_all(tokens@),
            decreases tokens.len() - i,
        {
            let ghost rest = tokens@.skip(i as int);
            if i < tokens.len() - 1 && self.a == tokens[i] && self.b == tokens[i + 1] {
                out.push(self.replacement);
                assert(rest.skip(2) =~= tokens@.skip(i + 2));
                i += 2;
            } else {
                out.push(tokens[i]);
                assert(rest.skip(1) =~= tokens@.skip(i + 1));
                i += 1;
            }
            assert(out@ + self.merge_all(tokens@.skip(i as int)) =~= start + self.merge_all(tokens@));
        }
        assert(tokens@.skip(i as int) =~= Seq::<Token>::empty());
        assert(out@ + Seq::<Token>::empty() =~= out@);
    }

    /// Applies the merge pass of this rule to `tokens` in place.
    pub fn apply_ip(&self, tokens: &mut Vec<Token>)
        ensures
            final(tokens)@ == self.merge_all(old(tokens)@),
    {
        let ghost orig = tokens@;
        let mut i: usize = 0;
        let mut j: usize = 0;
        assert(orig.skip(0) =~= orig);
        while i < tokens.len()
            invariant
                j <= i <= tokens.len(),
                tokens.len() == orig.len(),
                forall|k: int| i <= k < orig.len() ==> tokens@[k] == orig[k],
                tokens@.take(j as int) + self.merge_all(orig.skip(i as int)) == self.merge_all(orig),
            decreases tokens.len() - i,
        {
            let ghost rest = orig.skip(i as int);
            let ghost before = tokens@;
            if i < tokens.len() - 1 && self.a == tokens[i] && self.b == tokens[i + 1] {
                assert(rest[0] == orig[i as int] && rest[1] == orig[i + 1]);
                tokens[j] = self.replacement;
                assert(rest.skip(2) =~= orig.skip(i + 2));
                assert(tokens@.take(j + 1) =~= before.take(j as int) + seq![self.replacement]);
                i += 2;
            } else {
                let t = tokens[i];
                assert(rest[0] == t);
                tokens[j] = t;
                assert(rest.skip(1) =~= orig.skip(i + 1));
                assert(tokens@.take(j + 1) =~= before.take(j as int) + seq![t]);
                i += 1;
            }
            j += 1;
        }
        assert(orig.skip(i as int) =~= Seq::<Token>::empty());
        assert(tokens@.take(j as int) + Seq::<Token>::empty() =~= tokens@.take(j as int));
        tokens.truncate(j);
    }
}


/// The text spelled by `s` when each token `t` stands for `piece(t)`.
pub open spec fn concat_pieces(piece: spec_fn(Token) -> Seq<char>, s: Seq<Token>) -> Seq<char>
    decreases s.len(),
{
    if s.len() == 0 {
        Seq::<char>::empty()
    } else {
        piece(s[0]) + concat_pieces(piece, s.skip(1))
    }
}

/// `a` is immediately followed by `b` somewhere in `s`.
pub open spec fn pair_occurs(s: Seq<Token>, a: Token, b: Token) -> bool {
    exists|i: int| #![trigger s[i]] 0 <= i < s.len() - 1 && s[i] == a && s[i + 1] == b
}

/// Spelling a concatenation is concatenating the spellings.
pub proof fn lemma_concat_pieces_append(piece: spec_fn(Token) -> Seq<char>, s1: Seq<Token>, s2: Seq<Token>)
    ensures
        concat_pieces(piece, s1 + s2) == concat_pieces(piece, s1) + concat_pieces(piece, s2),
    decreases s1.len(),
{
    if s1.len() == 0 {
        assert(s1 + s2 =~= s2);
    } else {
        assert((s1 + s2).skip(1) =~= s1.skip(1) + s2);
        lemma_concat_pieces_append(piece, s1.skip(1), s2);
    }
}

/// A merge pass never lengthens a sequence.
pub proof fn lemma_merge_len_le(rule: Rule, s: Seq<Token>)
    ensures
        rule.merge_all(s).len() <= s.len(),
    decreases s.len(),
{
    if s.len() == 0 {
    } else if s.len() >= 2 && s[0] == rule.a && s[1] == rule.b {
        lemma_merge_len_le(rule, s.skip(2));
    } else {
        lemma_merge_len_le(rule, s.skip(1));
    }
}

/// A merge pass keeps a nonempty sequence nonempty.
pub proof fn lemma_merge_nonempty(rule: Rule, s: Seq<Token>)
    requires
        s.len() > 0,
    ensures
        rule.merge_all(s).len() > 0,
{
}

/// A merge pass shortens every sequence in which its pair occurs.
pub proof fn lemma_merge_shortens(rule: Rule, s: Seq<Token>)
    requires
        pair_occurs(s, rule.a, rule.b),
    ensures
        rule.merge_all(s).len() < s.len(),
    decreases s.len(),
{
    if s.len() >= 2 && s[0] == rule.a && s[1] == rule.b {
        lemma_merge_len_le(rule, s.skip(2));
    } else {
        let i = choose|i: int| #![trigger s[i]] 0 <= i < s.len() - 1 && s[i] == rule.a && s[i + 1] == rule.b;
        assert(i >= 1);
        let t = s.skip(1);
        assert(t[i - 1] == rule.a && t[i] == rule.b);
        lemma_merge_shortens(rule, t);
    }
}

/// Law: a merge pass keeps the spelled text, when the replacement spells the
/// pair it replaces.
pub proof fn lemma_merge_preserves_text(piece: spec_fn(Token) -> Seq<char>, rule: Rule, s: Seq<Token>)
    requires
        piece(rule.replacement) == piece(rule.a) + piece(rule.b),
    ensures
        concat_pieces(piece, rule.merge_all(s)) == concat_pieces(piece, s),
    decreases s.len(),
{
    if s.len() == 0 {
    } else if s.len() >= 2 && s[0] == rule.a && s[1] == rule.b {
        lemma_merge_preserves_text(piece, rule, s.skip(2));
        let rest = rule.merge_all(s.skip(2));
        assert((seq![rule.replacement] + rest).skip(1) =~= rest);
        assert(s.skip(1).skip(1) =~= s.skip(2));
        let tail = concat_pieces(piece, s.skip(2));
        assert(concat_pieces(piece, s.skip(1)) == piece(rule.b) + tail);
        assert(concat_pieces(piece, s) == piece(rule.a) + (piece(rule.b) + tail));
        assert(piece(rule.a) + (piece(rule.b) + tail) =~= (piece(rule.a) + piece(rule.b)) + tail);
    } else {
        lemma_merge_preserves_text(piece, rule, s.skip(1));
        let rest = rule.merge_all(s.skip(1));
        assert((seq![s[0]] + rest).skip(1) =~= rest);
    }
}

/// Every token left by a merge pass was in the input or is the replacement.
pub proof fn lemma_merge_tokens(rule: Rule, s: Seq<Token>)
    ensures
        forall|k: int| 0 <= k < rule.merge_all(s).len() ==>
            (#[trigger] rule.merge_all(s)[k] == rule.replacement || s.contains(rule.merge_all(s)[k])),
    decreases s.len(),
{
    if s.len() == 0 {
    } else if s.len() >= 2 && s[0] == rule.a && s[1] == rule.b {
        lemma_merge_tokens(rule, s.skip(2));
        let rest = rule.merge_all(s.skip(2));
        assert forall|k: int| 0 <= k < rule.merge_all(s).len() implies
            (#[trigger] rule.merge_all(s)[k] == rule.replacement || s.contains(rule.merge_all(s)[k])) by {
            if k > 0 {
                assert(rule.merge_all(s)[k] == rest[k - 1]);
                if s.skip(2).contains(rest[k - 1]) {
                    let j = choose|j: int| 0 <= j < s.skip(2).len() && s.skip(2)[j] == rest[k - 1];
                    assert(s[j + 2] == rest[k - 1]);
                }
            }
        }
    } else {
        lemma_merge_tokens(rule, s.skip(1));
        let rest = rule.merge_all(s.skip(1));
        assert forall|k: int| 0 <= k < rule.merge_all(s).len() implies
            (#[trigger] rule.merge_all(s)[k] == rule.replacement || s.contains(rule.merge_all(s)[k])) by {
            if k > 0 {
                assert(rule.merge_all(s)[k] == rest[k - 1]);
                if s.skip(1).contains(rest[k - 1]) {
                    let j = choose|j: int| 0 <= j < s.skip(1).len() && s.skip(1)[j] == rest[k - 1];
                    assert(s[j + 1] == rest[k - 1]);
                }
            } else {
                assert(s[0] == rule.merge_all(s)[0]);
            }
        }
    }
}

/// Law: undoing a merge pass (spelling each replacement out as its pair)
/// gives the input back, when the input does not already hold the
/// replacement token.
pub proof fn lemma_unmerge_merge(rule: Rule, s: Seq<Token>)
    requires
        !s.contains(rule.replacement),
    ensures
        rule.unmerge(rule.merge_all(s)) == s,
    decreases s.len(),
{
    if s.len() == 0 {
        assert(rule.merge_all(s) =~= Seq::<Token>::empty());
        assert(s =~= Seq::<Token>::empty());
    } else {
        let k: int = if s.len() >= 2 && s[0] == rule.a && s[1] == rule.b { 2 } else { 1 };
        let t = s.skip(k);
        assert(!t.contains(rule.replacement)) by {
            if t.contains(rule.replacement) {
                let j = choose|j: int| 0 <= j < t.len() && t[j] == rule.replacement;
                assert(s[j + k] == rule.replacement);
            }
        }
        lemma_unmerge_merge(rule, t);
        let m = rule.merge_all(s);
        assert(m.skip(1) =~= rule.merge_all(t));
        if k == 2 {
            assert(m[0] == rule.replacement);
            assert(s =~= seq![rule.a, rule.b] + t);
        } else {
            assert(s[0] == s[0]);
            assert(m[0] == s[0]);
            assert(m[0] != rule.replacement);
            assert(s =~= seq![s[0]] + t);
        }
    }
}

/// The first token left by a merge pass is the replacement or the first
/// token of the input.
proof fn lemma_merge_first(rule: Rule, s: Seq<Token>)
    requires
        s.len() > 0,
    ensures
        rule.merge_all(s).len() > 0,
        rule.merge_all(s)[0] == rule.replacement || rule.merge_all(s)[0] == s[0],
        rule.merge_all(s)[0] != rule.replacement ==> !(s.len() >= 2 && s[0] == rule.a && s[1] == rule.b),
{
}

/// A merge pass whose replacement differs from both tokens of its pair
/// leaves no occurrence of the pair.
pub proof fn lemma_merge_leaves_no_pair(rule: Rule, s: Seq<Token>)
    requires
        rule.replacement != rule.a,
        rule.replacement != rule.b,
    ensures
        !pair_occurs(rule.merge_all(s), rule.a, rule.b),
    decreases s.len(),
{
    if s.len() > 0 {
        let k: int = if s.len() >= 2 && s[0] == rule.a && s[1] == rule.b { 2 } else { 1 };
        let t = s.skip(k);
        lemma_merge_leaves_no_pair(rule, t);
        let m = rule.merge_all(s);
        let rest = rule.merge_all(t);
        assert(m == if k == 2 { seq![rule.replacement] + rest } else { seq![s[0]] + rest });
        if pair_occurs(m, rule.a, rule.b) {
            let i = choose|i: int| #![trigger m[i]] 0 <= i < m.len() - 1 && m[i] == rule.a && m[i + 1] == rule.b;
            if i == 0 {
                assert(k == 1);
                assert(m[1] == rest[0]);
                lemma_merge_first(rule, t);
                assert(t[0] == rule.b);
                assert(s[1] == t[0]);
            } else {
                assert(m[i] == rest[i - 1] && m[i + 1] == rest[i]);
                assert(rest[i - 1] == rule.a && rest[(i - 1) + 1] == rule.b);
            }
        }
    }
}

/// A merge pass changes nothing where its pair does not occur.
pub proof fn lemma_merge_without_pair(rule: Rule, s: Seq<Token>)
    requires
        !pair_occurs(s, rule.a, rule.b),
    ensures
        rule.merge_all(s) == s,
    decreases s.len(),
{
    if s.len() > 0 {
        assert(!(s.len() >= 2 && s[0] == rule.a && s[1] == rule.b)) by {
            if s.len() >= 2 && s[0] == rule.a && s[1] == rule.b {
                assert(s[0] == rule.a);
            }
        }
        let t = s.skip(1);
        assert(!pair_occurs(t, rule.a, rule.b)) by {
            if pair_occurs(t, rule.a, rule.b) {
                let i = choose|i: int| #![trigger t[i]] 0 <= i < t.len() - 1 && t[i] == rule.a && t[i + 1] == rule.b;
                assert(s[i + 1] == t[i] && s[i + 2] == t[i + 1]);
            }
        }
        lemma_merge_without_pair(rule, t);
        assert(s =~= seq![s[0]] + t);
    } else {
        assert(s =~= Seq::<Token>::empty());
    }
}

/// Law: a merge pass whose replacement differs from both tokens of its pair
/// is idempotent: a second pass changes nothing; and a pass at most halves
/// the length of a sequence.
pub proof fn lemma_merge_idempotent(rule: Rule, s: Seq<Token>)
    requires
        rule.replacement != rule.a,
        rule.replacement != rule.b,
    ensures
        rule.merge_all(rule.merge_all(s)) == rule.merge_all(s),
        rule.merge_all(s).len() <= s.len(),
        s.len() <= 2 * rule.merge_all(s).len(),
{
    lemma_merge_leaves_no_pair(rule, s);
    lemma_merge_without_pair(rule, rule.merge_all(s));
    lemma_merge_len_le(rule, s);
    lemma_merge_len_half(rule, s);
}

/// A merge pass keeps at least half of the tokens.
proof fn lemma_merge_len_half(rule: Rule, s: Seq<Token>)
    ensures
        s.len() <= 2 * rule.merge_all(s).len(),
    decreases s.len(),
{
    if s.len() == 0 {
    } else if s.len() >= 2 && s[0] == rule.a && s[1] == rule.b {
        lemma_merge_len_half(rule, s.skip(2));
    } else {
        lemma_merge_len_half(rule, s.skip(1));
    }
}

/// A merge pass creates no occurrence of a pair `x`, `y` that does not
/// involve its replacement.
pub proof fn lemma_merge_keeps_no_pair(rule: Rule, s: Seq<Token>, x: Token, y: Token)
    requires
        !pair_occurs(s, x, y),
        rule.replacement != x,
        rule.replacement != y,
    ensures
        !pair_occurs(rule.merge_all(s), x, y),
    decreases s.len(),
{
    if s.len() > 0 {
        let k: int = if s.len() >= 2 && s[0] == rule.a && s[1] == rule.b { 2 } else { 1 };
        let t = s.skip(k);
        assert(!pair_occurs(t, x, y)) by {
            if pair_occurs(t, x, y) {
                let i = choose|i: int| #![trigger t[i]] 0 <= i < t.len() - 1 && t[i] == x && t[i + 1] == y;
                assert(s[i + k] == t[i] && s[i + k + 1] == t[i + 1]);
            }
        }
        lemma_merge_keeps_no_pair(rule, t, x, y);
        let m = rule.merge_all(s);
        let rest = rule.merge_all(t);
        assert(m == if k == 2 { seq![rule.replacement] + rest } else { seq![s[0]] + rest });
        if pair_occurs(m, x, y) {
            let i = choose|i: int| #![trigger m[i]] 0 <= i < m.len() - 1 && m[i] == x && m[i + 1] == y;
            if i == 0 {
                assert(k == 1);
                assert(m[1] == rest[0]);
                lemma_merge_first(rule, t);
                assert(t[0] == y);
                assert(s[1] == t[0]);
                assert(s[0] == x);
            } else {
                assert(m[i] == rest[i - 1] && m[i + 1] == rest[i]);
                assert(rest[i - 1] == x && rest[(i - 1) + 1] == y);
            }
        }
    }
}

} // verus!
