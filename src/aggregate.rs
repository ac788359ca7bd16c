//! Merging the candidates of all orders: first occurrences kept, then a limit.

use crate::store::texts;
use itertools::Itertools;
use vstd::prelude::*;

verus! {

/// `s` without repeats, each element kept at its first occurrence.
pub open spec fn dedup(s: Seq<Seq<char>>) -> Seq<Seq<char>>
    decreases s.len(),
{
    if s.len() == 0 {
        s
    } else {
        let d = dedup(s.drop_last());
        if d.contains(s.last()) {
            d
        } else {
            d.push(s.last())
        }
    }
}

/// The first `limit` elements of `s`, or all of them when there are fewer.
pub open spec fn truncate(s: Seq<Seq<char>>, limit: nat) -> Seq<Seq<char>> {
    if limit < s.len() {
        s.subrange(0, limit as int)
    } else {
        s
    }
}

/// Relies on itertools::Itertools::unique, which yields the elements of the
/// iterator that were not yielded before (by `Eq`), in their original order.
#[verifier::external_body]
fn unique_words(v: Vec<String>) -> (r: Vec<String>)
    ensures
        texts(r@) == dedup(texts(v@)),
{
    v.into_iter().unique().collect()
}

/// The distinct candidates in `candidates`, each at its first occurrence,
/// cut to at most `limit`.
pub fn rank(candidates: Vec<String>, limit: usize) -> (r: Vec<String>)
    ensures
        texts(r@) == truncate(dedup(texts(candidates@)), limit as nat),
        r.len() == if limit < dedup(texts(candidates@)).len() {
            limit as int
        } else {
            dedup(texts(candidates@)).len() as int
        },
{
    let mut r = unique_words(candidates);
    let ghost before = r@;
    r.truncate(limit);
    assert(texts(r@) =~= truncate(texts(before), limit as nat));
    r
}

/// An element occurs after removing repeats exactly when it occurs before.
pub proof fn lemma_dedup_contains(s: Seq<Seq<char>>, x: Seq<char>)
    ensures
        dedup(s).contains(x) <==> s.contains(x),
    decreases s.len(),
{
    if s.len() > 0 {
        let p = s.drop_last();
        lemma_dedup_contains(p, x);
        lemma_dedup_contains(p, s.last());
        if p.contains(x) {
            let i = choose|i: int| 0 <= i < p.len() && p[i] == x;
            assert(s[i] == x);
        }
        if s.contains(x) && x != s.last() {
            let i = choose|i: int| 0 <= i < s.len() && s[i] == x;
            assert(p[i] == x);
        }
        if dedup(s).contains(x) && !dedup(p).contains(x) {
            assert(x == s.last());
            assert(s[s.len() - 1] == x);
        }
        if x == s.last() {
            assert(s[s.len() - 1] == x);
            if !dedup(p).contains(x) {
                assert(dedup(s)[dedup(s).len() - 1] == x);
            }
        } else if dedup(p).contains(x) {
            let i = choose|i: int| 0 <= i < dedup(p).len() && dedup(p)[i] == x;
            assert(dedup(s)[i] == x);
        }
    }
}

/// Removing repeats leaves no element twice.
pub proof fn lemma_dedup_no_duplicates(s: Seq<Seq<char>>)
    ensures
        dedup(s).no_duplicates(),
    decreases s.len(),
{
    if s.len() > 0 {
        lemma_dedup_no_duplicates(s.drop_last());
    }
}

/// Candidates met earlier keep their places ahead of those met later: the
/// distinct elements of `a` open the distinct elements of `a + b`.
pub proof fn lemma_dedup_prefix(a: Seq<Seq<char>>, b: Seq<Seq<char>>)
    ensures
        dedup(a).is_prefix_of(dedup(a + b)),
    decreases b.len(),
{
    if b.len() == 0 {
        assert(a + b =~= a);
    } else {
        lemma_dedup_prefix(a, b.drop_last());
        assert((a + b).drop_last() =~= a + b.drop_last());
    }
}

} // verus!
