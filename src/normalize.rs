//! Turning an input line into a request: its words, and whether the last
//! one is a fragment to complete or the line asks for the next word.

use crate::matcher::{
    predict, predict_resolves, predict_result, search_like, search_resolves, search_result,
    QueryError,
};
use crate::store::{texts, NgramStore, StoreError};
use vstd::prelude::*;

verus! {

/// A Unicode white-space character.
pub open spec fn is_separator(c: char) -> bool {
    let u = c as u32;
    (0x09 <= u <= 0x0d) || u == 0x20 || u == 0x85 || u == 0xa0 || u == 0x1680 || (0x2000 <= u
        <= 0x200a) || u == 0x2028 || u == 0x2029 || u == 0x202f || u == 0x205f || u == 0x3000
}

fn separator(c: char) -> (r: bool)
    ensures
        r == is_separator(c),
{
    let u = c as u32;
    (0x09 <= u && u <= 0x0d) || u == 0x20 || u == 0x85 || u == 0xa0 || u == 0x1680 || (0x2000
        <= u && u <= 0x200a) || u == 0x2028 || u == 0x2029 || u == 0x202f || u == 0x205f || u
        == 0x3000
}

/// The maximal runs of non-separator characters of `s`, in order.
pub open spec fn tokens(s: Seq<char>) -> Seq<Seq<char>>
    decreases s.len(),
{
    if s.len() == 0 {
        Seq::empty()
    } else {
        let t = tokens(s.drop_last());
        let c = s.last();
        if is_separator(c) {
            t
        } else if s.len() >= 2 && !is_separator(s[s.len() - 2]) {
            t.drop_last().push(t.last().push(c))
        } else {
            t.push(seq![c])
        }
    }
}

/// A line asks for the next word when it is empty or ends with a separator.
pub open spec fn asks_next(s: Seq<char>) -> bool {
    s.len() == 0 || is_separator(s.last())
}

/// What an input line asks for.
pub enum Request {
    /// Next words after these words.
    Predict(Vec<String>),
    /// Completions of the last word, after the words before it.
    Search(Vec<String>),
}

/// The words of `line`, split at runs of white space.
pub fn split_words(line: &str) -> (r: Vec<String>)
    ensures
        texts(r@) == tokens(line@),
{
    let n = line.unicode_len();
    let mut done: Vec<String> = Vec::new();
    let mut cur = String::new();
    let mut in_word = false;
    let mut i: usize = 0;
    assert(line@.subrange(0, 0) =~= Seq::<char>::empty());
    while i < n
        invariant
            n == line@.len(),
            i <= n,
            tokens(line@.subrange(0, i as int)) == if cur@.len() > 0 {
                texts(done@).push(cur@)
            } else {
                texts(done@)
            },
            in_word == (cur@.len() > 0),
            cur@.len() > 0 <==> (i > 0 && !is_separator(line@[i - 1])),
        decreases n - i,
    {
        let c = line.get_char(i);
        let ghost s = line@.subrange(0, i + 1);
        assert(s.drop_last() =~= line@.subrange(0, i as int));
        assert(s.last() == c);
        if i > 0 {
            assert(s[s.len() - 2] == line@[i - 1]);
        }
        if separator(c) {
            if in_word {
                let ghost before = done@;
                done.push(cur);
                assert(texts(done@) =~= texts(before).push(cur@));
                cur = String::new();
                in_word = false;
            }
        } else {
            let one = line.substring_char(i, i + 1);
            assert(one@ =~= seq![c]);
            let ghost old_cur = cur@;
            cur.append(one);
            assert(cur@ =~= old_cur.push(c));
            if in_word {
                let ghost t = texts(done@).push(old_cur);
                assert(t.drop_last() =~= texts(done@));
            } else {
                assert(old_cur.push(c) =~= seq![c]);
            }
            in_word = true;
        }
        i += 1;
    }
    assert(line@.subrange(0, n as int) =~= line@);
    if in_word {
        let ghost before = done@;
        done.push(cur);
        assert(texts(done@) =~= texts(before).push(cur@));
    }
    done
}

/// Reads a line: a prediction when it is empty or ends with white space,
/// else a search whose fragment is its last word.
pub fn parse_request(line: &str) -> (r: Request)
    ensures
        match r {
            Request::Predict(q) => asks_next(line@) && texts(q@) == tokens(line@),
            Request::Search(q) => !asks_next(line@) && texts(q@) == tokens(line@),
        },
{
    let words = split_words(line);
    let n = line.unicode_len();
    if n == 0 || separator(line.get_char(n - 1)) {
        Request::Predict(words)
    } else {
        Request::Search(words)
    }
}

/// Answers one input line: next words when it ends with white space,
/// completions of its last word otherwise, at most `limit` of them.
pub fn complete(store: &NgramStore, line: &str, limit: usize) -> (r: Result<
    Vec<String>,
    QueryError,
>)
    requires
        store.wf(),
    ensures
        tokens(line@).len() == 0 ==> r == Err::<Vec<String>, QueryError>(QueryError::EmptyQuery),
        tokens(line@).len() > 0 && asks_next(line@) ==> match r {
            Ok(v) => predict_resolves(store@, tokens(line@)) && texts(v@) == predict_result(
                store@,
                tokens(line@),
                limit as nat,
            ),
            Err(e) => e == QueryError::Store(StoreError::DanglingReference) && !predict_resolves(
                store@,
                tokens(line@),
            ),
        },
        tokens(line@).len() > 0 && !asks_next(line@) ==> match r {
            Ok(v) => search_resolves(store@, tokens(line@)) && texts(v@) == search_result(
                store@,
                tokens(line@),
                limit as nat,
            ),
            Err(e) => e == QueryError::Store(StoreError::DanglingReference) && !search_resolves(
                store@,
                tokens(line@),
            ),
        },
{
    match parse_request(line) {
        Request::Predict(q) => predict(store, &q, limit),
        Request::Search(q) => search_like(store, &q, limit),
    }
}

} // verus!
