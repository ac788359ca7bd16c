//! Properties that hold of every store and every request.

use crate::aggregate::{dedup, lemma_dedup_contains, lemma_dedup_no_duplicates, lemma_dedup_prefix};
use crate::matcher::{
    predict_context, predict_levels, predict_result, search_context, search_levels, search_result,
};
use crate::store::{entry_matches, grams_ascending, is_prefix, GramEntry, StoreView};
use vstd::prelude::*;

verus! {

proof fn lemma_gram_text_len(s: StoreView, k: nat, g: GramEntry)
    requires
        s.well_formed(),
        2 <= k <= 5,
    ensures
        s.gram_text(k, g) is Some ==> s.gram_text(k, g)->0.len() == k,
    decreases k,
{
    if k > 2 {
        let t = s.grams[k - 3];
        if exists|i: int| 0 <= i < t.len() && t[i].id == g.prefix {
            let i = choose|i: int| 0 <= i < t.len() && t[i].id == g.prefix;
            lemma_gram_text_len(s, (k - 1) as nat, t[i]);
        }
    }
}

proof fn lemma_entry_text_len(s: StoreView, k: nat, i: int)
    requires
        s.well_formed(),
        1 <= k <= 5,
    ensures
        s.entry_text(k, i) is Some ==> s.entry_text(k, i)->0.len() == k,
{
    if k >= 2 {
        lemma_gram_text_len(s, k, s.grams[k - 2][i]);
    }
}

proof fn lemma_matches_upto_keeps(s: StoreView, ctx: Seq<Seq<char>>, f: Seq<char>, i: int, n: nat)
    requires
        0 <= i < n,
        s.entry_text(ctx.len() + 1, i) is Some,
        entry_matches(s.entry_text(ctx.len() + 1, i)->0, ctx, f),
    ensures
        s.matches_upto(ctx, f, n).contains(s.entry_text(ctx.len() + 1, i)->0[ctx.len() as int]),
    decreases n,
{
    let w = s.entry_text(ctx.len() + 1, i)->0[ctx.len() as int];
    let m = s.matches_upto(ctx, f, n);
    if n == i + 1 {
        assert(m[m.len() - 1] == w);
    } else {
        lemma_matches_upto_keeps(s, ctx, f, i, (n - 1) as nat);
        let prev = s.matches_upto(ctx, f, (n - 1) as nat);
        let j = choose|j: int| 0 <= j < prev.len() && prev[j] == w;
        assert(m[j] == w);
    }
}

/// An entry of order `k` whose references resolve is always found: its last
/// word is among the completions of each prefix `p` of that word after the
/// words before it, and (for `k` of at least 2) among their next words.
pub proof fn lemma_known_entry_found(s: StoreView, k: nat, i: int, p: Seq<char>)
    requires
        s.well_formed(),
        1 <= k <= 5,
        0 <= i < s.table_len(k),
        s.entry_text(k, i) is Some,
        is_prefix(p, s.entry_text(k, i)->0.last()),
    ensures
        s.matches(s.entry_text(k, i)->0.drop_last(), p).contains(s.entry_text(k, i)->0.last()),
        k >= 2 ==> s.matches(s.entry_text(k, i)->0.drop_last(), Seq::empty()).contains(
            s.entry_text(k, i)->0.last(),
        ),
{
    let t = s.entry_text(k, i)->0;
    lemma_entry_text_len(s, k, i);
    let ctx = t.drop_last();
    assert(t.subrange(0, ctx.len() as int) =~= ctx);
    assert(t[ctx.len() as int] == t.last());
    lemma_matches_upto_keeps(s, ctx, p, i, s.table_len(k));
    assert(t.last().subrange(0, 0) =~= Seq::<char>::empty());
    lemma_matches_upto_keeps(s, ctx, Seq::empty(), i, s.table_len(k));
}

proof fn lemma_levels_hold_last(s: StoreView, c: Seq<Seq<char>>, w: Seq<char>)
    requires
        c.len() > 0,
        s.matches(seq![c.last()], Seq::empty()).contains(w),
    ensures
        predict_levels(s, c).contains(w),
    decreases c.len(),
{
    let m = s.matches(seq![c.last()], Seq::empty());
    let j = choose|j: int| 0 <= j < m.len() && m[j] == w;
    if c.len() == 1 {
        assert(c =~= seq![c.last()]);
        assert(predict_levels(s, c.drop_first()) =~= Seq::empty());
        assert(predict_levels(s, c)[j] == w);
    } else {
        assert(c.drop_first().last() == c.last());
        lemma_levels_hold_last(s, c.drop_first(), w);
        let rest = predict_levels(s, c.drop_first());
        let j2 = choose|j2: int| 0 <= j2 < rest.len() && rest[j2] == w;
        let here = s.matches(c, Seq::empty());
        assert(predict_levels(s, c)[here.len() + j2] == w);
    }
}

/// Prediction falls back to the last word of the context: every next word of
/// that word alone is ranked, whatever the longer contexts give, and the
/// answer is empty only for a limit of zero.
pub proof fn lemma_fallback_to_last_word(s: StoreView, q: Seq<Seq<char>>, w: Seq<char>, limit: nat)
    requires
        q.len() > 0,
        s.matches(seq![q.last()], Seq::empty()).contains(w),
    ensures
        dedup(predict_levels(s, predict_context(q))).contains(w),
        limit > 0 ==> predict_result(s, q, limit).len() > 0,
{
    let c = predict_context(q);
    assert(c.last() == q.last());
    lemma_levels_hold_last(s, c, w);
    lemma_dedup_contains(predict_levels(s, c), w);
}

/// A word found at several orders is ranked once, and where the longest
/// context finds it, among the words of that context, ahead of all words
/// that only shorter contexts find.
pub proof fn lemma_ranked_once(s: StoreView, q: Seq<Seq<char>>)
    requires
        q.len() > 0,
    ensures
        dedup(predict_levels(s, predict_context(q))).no_duplicates(),
        dedup(s.matches(predict_context(q), Seq::empty())).is_prefix_of(
            dedup(predict_levels(s, predict_context(q))),
        ),
        dedup(search_levels(s, search_context(q), q.last())).no_duplicates(),
        dedup(s.matches(search_context(q), q.last())).is_prefix_of(
            dedup(search_levels(s, search_context(q), q.last())),
        ),
{
    let c = predict_context(q);
    lemma_dedup_no_duplicates(predict_levels(s, c));
    lemma_dedup_prefix(s.matches(c, Seq::empty()), predict_levels(s, c.drop_first()));
    let d = search_context(q);
    let f = q.last();
    lemma_dedup_no_duplicates(search_levels(s, d, f));
    if d.len() == 0 {
        assert(s.matches(d, f) + Seq::<Seq<char>>::empty() =~= s.matches(d, f));
        lemma_dedup_prefix(s.matches(d, f), Seq::empty());
    } else {
        lemma_dedup_prefix(s.matches(d, f), search_levels(s, d.drop_first(), f));
    }
}

/// An answer holds `limit` words, or every distinct candidate when there
/// are fewer; a limit of zero gives none.
pub proof fn lemma_limit(s: StoreView, q: Seq<Seq<char>>, limit: nat)
    ensures
        predict_result(s, q, limit).len() == if limit < dedup(
            predict_levels(s, predict_context(q)),
        ).len() {
            limit
        } else {
            dedup(predict_levels(s, predict_context(q))).len()
        },
        search_result(s, q, limit).len() == if limit < dedup(
            search_levels(s, search_context(q), q.last()),
        ).len() {
            limit
        } else {
            dedup(search_levels(s, search_context(q), q.last())).len()
        },
        limit == 0 ==> predict_result(s, q, limit).len() == 0 && search_result(s, q, limit).len()
            == 0,
{
}

/// Table indices of the entries, among the first `n` of order
/// `ctx.len() + 1`, that extend `ctx` by a word beginning with `f`.
pub open spec fn match_indices(s: StoreView, ctx: Seq<Seq<char>>, f: Seq<char>, n: nat) -> Seq<int>
    decreases n,
{
    if n == 0 {
        Seq::empty()
    } else {
        let rest = match_indices(s, ctx, f, (n - 1) as nat);
        match s.entry_text(ctx.len() + 1, n - 1) {
            Some(t) => if entry_matches(t, ctx, f) {
                rest.push(n - 1)
            } else {
                rest
            },
            None => rest,
        }
    }
}

proof fn lemma_match_indices_upto(s: StoreView, ctx: Seq<Seq<char>>, f: Seq<char>, n: nat)
    ensures
        match_indices(s, ctx, f, n).len() == s.matches_upto(ctx, f, n).len(),
        forall|a: int|
            0 <= a < match_indices(s, ctx, f, n).len() ==> {
                let i = #[trigger] match_indices(s, ctx, f, n)[a];
                &&& 0 <= i < n
                &&& s.entry_text(ctx.len() + 1, i) is Some
                &&& entry_matches(s.entry_text(ctx.len() + 1, i)->0, ctx, f)
                &&& s.matches_upto(ctx, f, n)[a] == s.entry_text(ctx.len() + 1, i)->0[ctx.len() as int]
            },
        forall|a: int, b: int|
            0 <= a < b < match_indices(s, ctx, f, n).len() ==> match_indices(s, ctx, f, n)[a]
                < match_indices(s, ctx, f, n)[b],
    decreases n,
{
    if n > 0 {
        lemma_match_indices_upto(s, ctx, f, (n - 1) as nat);
    }
}

/// Within one order, candidates come in ascending entry id: the words that
/// `ctx` and `f` select are the last words of the matching entries, taken
/// in table order, and their ids ascend.
pub proof fn lemma_matches_in_id_order(s: StoreView, ctx: Seq<Seq<char>>, f: Seq<char>)
    requires
        s.well_formed(),
        ctx.len() <= 4,
    ensures
        ({
            let k = (ctx.len() + 1) as nat;
            let ix = match_indices(s, ctx, f, s.table_len(k));
            &&& ix.len() == s.matches(ctx, f).len()
            &&& forall|a: int|
                0 <= a < ix.len() ==> s.entry_text(k, #[trigger] ix[a]) is Some
                    && s.matches(ctx, f)[a] == s.entry_text(k, ix[a])->0.last()
            &&& forall|a: int, b: int|
                0 <= a < b < ix.len() ==> s.entry_id(k, #[trigger] ix[a]) < s.entry_id(
                    k,
                    #[trigger] ix[b],
                )
        }),
{
    let k = (ctx.len() + 1) as nat;
    let n = s.table_len(k);
    let ix = match_indices(s, ctx, f, n);
    lemma_match_indices_upto(s, ctx, f, n);
    assert forall|a: int| 0 <= a < ix.len() implies s.entry_text(k, #[trigger] ix[a]) is Some
        && s.matches(ctx, f)[a] == s.entry_text(k, ix[a])->0.last() by {
        let t = s.entry_text(k, ix[a])->0;
        assert(t.len() == ctx.len() + 1);
    }
    assert forall|a: int, b: int| 0 <= a < b < ix.len() implies s.entry_id(k, #[trigger] ix[a])
        < s.entry_id(k, #[trigger] ix[b]) by {
        assert(ix[a] < ix[b]);
        if k >= 2 {
            assert(grams_ascending(s.grams[k - 2]));
        }
    }
}

/// The same request on the same store gets the same answer, in the same
/// order.
pub proof fn lemma_same_request_same_answer(
    s1: StoreView,
    s2: StoreView,
    q: Seq<Seq<char>>,
    limit: nat,
)
    requires
        s1 == s2,
    ensures
        predict_result(s1, q, limit) == predict_result(s2, q, limit),
        search_result(s1, q, limit) == search_result(s2, q, limit),
{
}

} // verus!
