//! The backoff cascade: look up the longest context first, then drop the
//! oldest word and look up again, down to the shortest context.

use crate::aggregate::{dedup, rank, truncate};
use crate::store::{texts, NgramStore, StoreError, StoreView};
use vstd::prelude::*;

verus! {

/// Why a request produced no answer.
#[derive(Clone, Copy, Debug, PartialEq, Eq, Structural)]
pub enum QueryError {
    /// The request held no word at all.
    EmptyQuery,
    /// A lookup met a malformed store.
    Store(StoreError),
}

/// The last `m` words of `q`, or all of them when there are fewer.
pub open spec fn window(q: Seq<Seq<char>>, m: nat) -> Seq<Seq<char>> {
    if q.len() <= m {
        q
    } else {
        q.subrange(q.len() - m, q.len() as int)
    }
}

/// Next-word candidates for `ctx`, whole context first, then each shorter
/// suffix of it down to its last word.
pub open spec fn predict_levels(s: StoreView, ctx: Seq<Seq<char>>) -> Seq<Seq<char>>
    decreases ctx.len(),
{
    if ctx.len() == 0 {
        Seq::empty()
    } else {
        s.matches(ctx, Seq::empty()) + predict_levels(s, ctx.drop_first())
    }
}

/// Completions of `f` after `ctx`, whole context first, then each shorter
/// suffix of it, down to no context at all.
pub open spec fn search_levels(s: StoreView, ctx: Seq<Seq<char>>, f: Seq<char>) -> Seq<Seq<char>>
    decreases ctx.len(),
{
    if ctx.len() == 0 {
        s.matches(ctx, f)
    } else {
        s.matches(ctx, f) + search_levels(s, ctx.drop_first(), f)
    }
}

/// The tables of orders `lo` to `hi` all resolve.
pub open spec fn orders_resolve(s: StoreView, lo: nat, hi: nat) -> bool {
    forall|k: nat| lo <= k <= hi ==> #[trigger] s.table_resolves(k)
}

/// The words of `v` from index `start` on.
fn tail_from(v: &Vec<String>, start: usize) -> (r: Vec<String>)
    requires
        start <= v.len(),
    ensures
        texts(r@) == texts(v@).subrange(start as int, v.len() as int),
{
    let mut r: Vec<String> = Vec::new();
    let mut i: usize = start;
    while i < v.len()
        invariant
            start <= i <= v.len(),
            texts(r@) == texts(v@).subrange(start as int, i as int),
        decreases v.len() - i,
    {
        let ghost before = r@;
        r.push(v[i].clone());
        assert(texts(r@) =~= texts(before).push(v@[i as int]@));
        assert(texts(r@) =~= texts(v@).subrange(start as int, i + 1));
        i += 1;
    }
    r
}

/// All next-word candidates for `ctx` (1 to 4 words), by descending order.
fn predict_candidates(store: &NgramStore, ctx: &Vec<String>) -> (r: Result<Vec<String>, StoreError>)
    requires
        store.wf(),
        1 <= ctx.len() <= 4,
    ensures
        match r {
            Ok(v) => orders_resolve(store@, 2, (ctx.len() + 1) as nat) && texts(v@)
                == predict_levels(store@, texts(ctx@)),
            Err(e) => e == StoreError::DanglingReference && !orders_resolve(
                store@,
                2,
                (ctx.len() + 1) as nat,
            ),
        },
{
    let n = ctx.len();
    let ghost c = texts(ctx@);
    let mut all: Vec<String> = Vec::new();
    let mut start: usize = 0;
    assert(c.subrange(0, n as int) =~= c);
    while start < n
        invariant
            store.wf(),
            n == ctx.len(),
            1 <= n <= 4,
            c == texts(ctx@),
            start <= n,
            texts(all@) + predict_levels(store@, c.subrange(start as int, n as int))
                == predict_levels(store@, c),
            orders_resolve(store@, (n - start + 2) as nat, (n + 1) as nat),
        decreases n - start,
    {
        let sub = tail_from(ctx, start);
        let ghost rest = c.subrange(start as int, n as int);
        assert(rest.drop_first() =~= c.subrange(start + 1, n as int));
        match store.match_next(&sub) {
            Ok(mut found) => {
                let ghost before = all@;
                let ghost got = found@;
                all.append(&mut found);
                assert(texts(all@) =~= texts(before) + texts(got));
                assert(texts(all@) + predict_levels(store@, c.subrange(start + 1, n as int))
                    =~= texts(before) + predict_levels(store@, rest));
                assert forall|k: nat| (n - start + 1) as nat <= k <= (n + 1) as nat implies #[trigger] store@.table_resolves(k) by {
                    if k > n - start + 1 {
                        assert(orders_resolve(store@, (n - start + 2) as nat, (n + 1) as nat));
                    }
                }
            },
            Err(e) => {
                return Err(e);
            },
        }
        start += 1;
    }
    assert(c.subrange(n as int, n as int) =~= Seq::<Seq<char>>::empty());
    assert(texts(all@) + Seq::<Seq<char>>::empty() =~= texts(all@));
    Ok(all)
}

/// All completions of `f` after `ctx` (0 to 4 words), by descending order.
fn search_candidates(store: &NgramStore, ctx: &Vec<String>, f: &String) -> (r: Result<
    Vec<String>,
    StoreError,
>)
    requires
        store.wf(),
        ctx.len() <= 4,
    ensures
        match r {
            Ok(v) => orders_resolve(store@, 1, (ctx.len() + 1) as nat) && texts(v@)
                == search_levels(store@, texts(ctx@), f@),
            Err(e) => e == StoreError::DanglingReference && !orders_resolve(
                store@,
                1,
                (ctx.len() + 1) as nat,
            ),
        },
{
    let n = ctx.len();
    let ghost c = texts(ctx@);
    let mut all: Vec<String> = Vec::new();
    let mut start: usize = 0;
    assert(c.subrange(0, n as int) =~= c);
    while start < n
        invariant
            store.wf(),
            n == ctx.len(),
            n <= 4,
            c == texts(ctx@),
            start <= n,
            texts(all@) + search_levels(store@, c.subrange(start as int, n as int), f@)
                == search_levels(store@, c, f@),
            orders_resolve(store@, (n - start + 2) as nat, (n + 1) as nat),
        decreases n - start,
    {
        let sub = tail_from(ctx, start);
        let ghost rest = c.subrange(start as int, n as int);
        assert(rest.drop_first() =~= c.subrange(start + 1, n as int));
        match store.match_prefix(&sub, f) {
            Ok(mut found) => {
                let ghost before = all@;
                let ghost got = found@;
                all.append(&mut found);
                assert(texts(all@) =~= texts(before) + texts(got));
                assert(texts(all@) + search_levels(store@, c.subrange(start + 1, n as int), f@)
                    =~= texts(before) + search_levels(store@, rest, f@));
                assert forall|k: nat| (n - start + 1) as nat <= k <= (n + 1) as nat implies #[trigger] store@.table_resolves(k) by {
                    if k > n - start + 1 {
                        assert(orders_resolve(store@, (n - start + 2) as nat, (n + 1) as nat));
                    }
                }
            },
            Err(e) => {
                return Err(e);
            },
        }
        start += 1;
    }
    let none: Vec<String> = Vec::new();
    assert(c.subrange(n as int, n as int) =~= texts(none@));
    match store.match_prefix(&none, f) {
        Ok(mut found) => {
            let ghost before = all@;
            let ghost got = found@;
            all.append(&mut found);
            assert(texts(all@) =~= texts(before) + texts(got));
            assert forall|k: nat| 1 <= k <= (n + 1) as nat implies #[trigger] store@.table_resolves(k) by {
                if k > 1 {
                    assert(orders_resolve(store@, 2, (n + 1) as nat));
                }
            }
            Ok(all)
        },
        Err(e) => Err(e),
    }
}

/// The context window of a prediction: the last four words of the query.
pub open spec fn predict_context(q: Seq<Seq<char>>) -> Seq<Seq<char>> {
    window(q, 4)
}

/// The ranked answer to a prediction from query words `q`.
pub open spec fn predict_result(s: StoreView, q: Seq<Seq<char>>, limit: nat) -> Seq<Seq<char>> {
    truncate(dedup(predict_levels(s, predict_context(q))), limit)
}

/// The lookups of a prediction from query words `q` meet no malformed entry.
pub open spec fn predict_resolves(s: StoreView, q: Seq<Seq<char>>) -> bool {
    orders_resolve(s, 2, (predict_context(q).len() + 1) as nat)
}

/// The context window of a search: up to four words before the fragment.
pub open spec fn search_context(q: Seq<Seq<char>>) -> Seq<Seq<char>> {
    window(q.drop_last(), 4)
}

/// The ranked answer to a search whose query ends with the fragment.
pub open spec fn search_result(s: StoreView, q: Seq<Seq<char>>, limit: nat) -> Seq<Seq<char>> {
    truncate(dedup(search_levels(s, search_context(q), q.last())), limit)
}

/// The lookups of a search from query words `q` meet no malformed entry.
pub open spec fn search_resolves(s: StoreView, q: Seq<Seq<char>>) -> bool {
    orders_resolve(s, 1, (search_context(q).len() + 1) as nat)
}

/// The last `m` words of `q`.
fn window_of(q: &Vec<String>, m: usize) -> (r: Vec<String>)
    ensures
        texts(r@) == window(texts(q@), m as nat),
        r.len() == if q.len() <= m {
            q.len()
        } else {
            m
        },
{
    let n = q.len();
    let r = if n <= m {
        tail_from(q, 0)
    } else {
        tail_from(q, n - m)
    };
    assert(texts(q@).subrange(0, n as int) =~= texts(q@));
    assert(texts(r@).len() == r@.len());
    r
}

/// Next words after the query words (the last four of them count), ranked
/// by descending order and then ascending entry id, at most `limit`.
pub fn predict(store: &NgramStore, query: &Vec<String>, limit: usize) -> (r: Result<
    Vec<String>,
    QueryError,
>)
    requires
        store.wf(),
    ensures
        query.len() == 0 ==> r == Err::<Vec<String>, QueryError>(QueryError::EmptyQuery),
        query.len() > 0 ==> match r {
            Ok(v) => predict_resolves(store@, texts(query@)) && texts(v@) == predict_result(
                store@,
                texts(query@),
                limit as nat,
            ),
            Err(e) => e == QueryError::Store(StoreError::DanglingReference) && !predict_resolves(
                store@,
                texts(query@),
            ),
        },
{
    if query.len() == 0 {
        return Err(QueryError::EmptyQuery);
    }
    let ctx = window_of(query, 4);
    match predict_candidates(store, &ctx) {
        Ok(all) => Ok(rank(all, limit)),
        Err(e) => Err(QueryError::Store(e)),
    }
}

/// Completions of the last query word, constrained by as much of the words
/// before it (up to four) as matches, ranked by descending order and then
/// ascending entry id, at most `limit`.
pub fn search_like(store: &NgramStore, query: &Vec<String>, limit: usize) -> (r: Result<
    Vec<String>,
    QueryError,
>)
    requires
        store.wf(),
    ensures
        query.len() == 0 ==> r == Err::<Vec<String>, QueryError>(QueryError::EmptyQuery),
        query.len() > 0 ==> match r {
            Ok(v) => search_resolves(store@, texts(query@)) && texts(v@) == search_result(
                store@,
                texts(query@),
                limit as nat,
            ),
            Err(e) => e == QueryError::Store(StoreError::DanglingReference) && !search_resolves(
                store@,
                texts(query@),
            ),
        },
{
    let n = query.len();
    if n == 0 {
        return Err(QueryError::EmptyQuery);
    }
    let mut before = tail_from(query, 0);
    assert(texts(before@).len() == before@.len());
    let fragment = before.pop().unwrap();
    assert(texts(query@).subrange(0, n as int) =~= texts(query@));
    assert(texts(before@) =~= texts(query@).drop_last());
    let ctx = window_of(&before, 4);
    match search_candidates(store, &ctx, &fragment) {
        Ok(all) => Ok(rank(all, limit)),
        Err(e) => Err(QueryError::Store(e)),
    }
}

/// Next words after exactly the last four (or fewer) query words, with no
/// fallback to shorter contexts, at most `limit`.
pub fn predict_strict(store: &NgramStore, query: &Vec<String>, limit: usize) -> (r: Result<
    Vec<String>,
    QueryError,
>)
    requires
        store.wf(),
    ensures
        query.len() == 0 ==> r == Err::<Vec<String>, QueryError>(QueryError::EmptyQuery),
        query.len() > 0 ==> match r {
            Ok(v) => store@.table_resolves((predict_context(texts(query@)).len() + 1) as nat)
                && texts(v@) == truncate(
                dedup(store@.matches(predict_context(texts(query@)), Seq::empty())),
                limit as nat,
            ),
            Err(e) => e == QueryError::Store(StoreError::DanglingReference)
                && !store@.table_resolves((predict_context(texts(query@)).len() + 1) as nat),
        },
{
    if query.len() == 0 {
        return Err(QueryError::EmptyQuery);
    }
    let ctx = window_of(query, 4);
    match store.match_next(&ctx) {
        Ok(found) => Ok(rank(found, limit)),
        Err(e) => Err(QueryError::Store(e)),
    }
}

/// Completions of the last query word after exactly the (up to four) words
/// before it, with no fallback to shorter contexts, at most `limit`.
pub fn search_strict(store: &NgramStore, query: &Vec<String>, limit: usize) -> (r: Result<
    Vec<String>,
    QueryError,
>)
    requires
        store.wf(),
    ensures
        query.len() == 0 ==> r == Err::<Vec<String>, QueryError>(QueryError::EmptyQuery),
        query.len() > 0 ==> match r {
            Ok(v) => store@.table_resolves((search_context(texts(query@)).len() + 1) as nat)
                && texts(v@) == truncate(
                dedup(store@.matches(search_context(texts(query@)), texts(query@).last())),
                limit as nat,
            ),
            Err(e) => e == QueryError::Store(StoreError::DanglingReference)
                && !store@.table_resolves((search_context(texts(query@)).len() + 1) as nat),
        },
{
    let n = query.len();
    if n == 0 {
        return Err(QueryError::EmptyQuery);
    }
    let mut before = tail_from(query, 0);
    assert(texts(before@).len() == before@.len());
    let fragment = before.pop().unwrap();
    assert(texts(query@).subrange(0, n as int) =~= texts(query@));
    assert(texts(before@) =~= texts(query@).drop_last());
    let ctx = window_of(&before, 4);
    match store.match_prefix(&ctx, &fragment) {
        Ok(found) => Ok(rank(found, limit)),
        Err(e) => Err(QueryError::Store(e)),
    }
}

} // verus!
