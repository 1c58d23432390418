//! Numbers written with a comma between groups of three digits.

use vstd::prelude::*;
use itertools::Itertools;
use crate::text::{joined, string_views, join_strings, chars_of, string_from_chars};
use crate::json::{decimal, usize_to_string};

verus! {

/// `s` with a comma before each group of three characters counted from the end.
pub open spec fn with_commas(s: Seq<char>) -> Seq<char>
    decreases s.len(),
{
    if s.len() <= 3 {
        s
    } else {
        with_commas(s.take(s.len() - 3)) + seq![','] + s.skip(s.len() - 3)
    }
}

/// `v` cut into pieces of `k` items, the last piece possibly shorter.
pub open spec fn chunks_of(v: Seq<char>, k: nat) -> Seq<Seq<char>>
    decreases v.len(),
{
    if v.len() == 0 || k == 0 {
        Seq::<Seq<char>>::empty()
    } else if v.len() <= k {
        seq![v]
    } else {
        seq![v.take(k as int)] + chunks_of(v.skip(k as int), k)
    }
}

/// `v` cut into pieces of `size` characters (`Itertools::chunks`, each chunk collected).
#[verifier::external_body]
fn chunks(v: &Vec<char>, size: usize) -> (res: Vec<Vec<char>>)
    requires
        size > 0,
    ensures
        res@.map_values(|c: Vec<char>| c@) == chunks_of(v@, size as nat),
{
    v.iter().copied().chunks(size).into_iter().map(|chunk| chunk.collect::<Vec<char>>()).collect()
}

/// The characters of `v` in reverse order.
fn reversed(v: &Vec<char>) -> (r: Vec<char>)
    ensures
        r@ == v@.reverse(),
{
    let mut r: Vec<char> = Vec::new();
    let mut i: usize = v.len();
    while i > 0
        invariant
            i <= v@.len(),
            r@ == v@.skip(i as int).reverse(),
        decreases i,
    {
        i -= 1;
        r.push(v[i]);
        assert(r@ =~= v@.skip(i as int).reverse());
    }
    assert(v@.skip(0) =~= v@);
    r
}

/// Joining a first part onto at least one more.
proof fn lemma_joined_cons(x: Seq<char>, rest: Seq<Seq<char>>, sep: Seq<char>)
    requires
        rest.len() >= 1,
    ensures
        joined(seq![x] + rest, sep) == x + sep + joined(rest, sep),
    decreases rest.len(),
{
    let all = seq![x] + rest;
    if rest.len() == 1 {
        assert(all.drop_last() =~= seq![x]);
        assert(all.last() == rest[0]);
        assert(joined(seq![x], sep) == x);
        assert(joined(rest, sep) == rest[0]);
        assert(joined(all, sep) == joined(all.drop_last(), sep) + sep + all.last());
    } else {
        assert(all.drop_last() =~= seq![x] + rest.drop_last());
        lemma_joined_cons(x, rest.drop_last(), sep);
        assert(all.last() == rest.last());
        assert(joined(all, sep) == joined(all.drop_last(), sep) + sep + all.last());
        assert(joined(rest, sep) == joined(rest.drop_last(), sep) + sep + rest.last());
        assert(x + sep + joined(rest.drop_last(), sep) + sep + rest.last() =~= x + sep + (joined(rest.drop_last(), sep) + sep + rest.last()));
    }
}

/// Grouping the reversed digits in threes, joining the groups with commas and
/// reversing back puts the commas where `with_commas` does.
proof fn lemma_commas(s: Seq<char>)
    ensures
        joined(chunks_of(s.reverse(), 3), seq![',']).reverse() == with_commas(s),
    decreases s.len(),
{
    let r = s.reverse();
    if s.len() == 0 {
        assert(r =~= Seq::<char>::empty());
        assert(Seq::<char>::empty().reverse() =~= Seq::<char>::empty());
    } else if s.len() <= 3 {
        assert(chunks_of(r, 3) == seq![r]);
        assert(r.reverse() =~= s);
    } else {
        let p = s.take(s.len() - 3);
        let q = s.skip(s.len() - 3);
        assert(r.take(3) =~= q.reverse());
        assert(r.skip(3) =~= p.reverse());
        assert(chunks_of(r, 3) == seq![r.take(3)] + chunks_of(r.skip(3), 3));
        lemma_commas(p);
        let j = joined(chunks_of(p.reverse(), 3), seq![',']);
        assert(p.reverse().len() > 0);
        assert(chunks_of(p.reverse(), 3).len() >= 1);
        lemma_joined_cons(q.reverse(), chunks_of(p.reverse(), 3), seq![',']);
        assert((q.reverse() + seq![','] + j).reverse() =~= j.reverse() + seq![','] + q.reverse().reverse());
        assert(q.reverse().reverse() =~= q);
    }
}

/// `number` in decimal, with a comma before each group of three digits
/// counted from the end.
pub fn format_commas(number: usize) -> (s: String)
    ensures
        s@ == with_commas(decimal(number as nat)),
{
    let digits = usize_to_string(number);
    let chars = chars_of(&digits);
    let rev = reversed(&chars);
    let groups = chunks(&rev, 3);
    let mut parts: Vec<String> = Vec::new();
    let mut i: usize = 0;
    while i < groups.len()
        invariant
            i <= groups@.len(),
            string_views(parts@) == groups@.take(i as int).map_values(|c: Vec<char>| c@),
        decreases groups@.len() - i,
    {
        let part = string_from_chars(&groups[i]);
        let ghost before = parts@;
        parts.push(part);
        assert(string_views(parts@) =~= string_views(before).push(part@));
        assert(string_views(parts@) =~= groups@.take(i + 1).map_values(|c: Vec<char>| c@));
        i += 1;
    }
    assert(groups@.take(i as int) =~= groups@);
    let joined_groups = join_strings(&parts, ",");
    let joined_chars = chars_of(&joined_groups);
    let back = reversed(&joined_chars);
    proof {
        reveal_strlit(",");
        assert(","@ =~= seq![',']);
        lemma_commas(decimal(number as nat));
    }
    string_from_chars(&back)
}

} // verus!
