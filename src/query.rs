//! Prefix patterns for `LIKE` lookups, with the wildcard characters of the
//! fragment escaped so that they match only themselves.

use crate::store::is_prefix;
use vstd::prelude::*;

verus! {

/// What a `LIKE` pattern with escape character `\` matches, case-sensitively:
/// `%` any run of characters, `_` any one character, `\c` the character `c`.
pub open spec fn like_matches(p: Seq<char>, t: Seq<char>) -> bool
    decreases p.len() + t.len(),
{
    if p.len() == 0 {
        t.len() == 0
    } else if p[0] == '%' {
        like_matches(p.drop_first(), t) || (t.len() > 0 && like_matches(p, t.drop_first()))
    } else if p[0] == '_' {
        t.len() > 0 && like_matches(p.drop_first(), t.drop_first())
    } else if p[0] == '\\' && p.len() >= 2 {
        t.len() > 0 && t[0] == p[1] && like_matches(p.subrange(2, p.len() as int), t.drop_first())
    } else {
        t.len() > 0 && t[0] == p[0] && like_matches(p.drop_first(), t.drop_first())
    }
}

/// A character that has a meaning of its own in a `LIKE` pattern.
pub open spec fn is_like_special(c: char) -> bool {
    c == '%' || c == '_' || c == '\\'
}

/// How one character of a fragment is written in a pattern.
pub open spec fn escaped_char(c: char) -> Seq<char> {
    if is_like_special(c) {
        seq!['\\', c]
    } else {
        seq![c]
    }
}

/// The fragment `q` with every special character escaped.
pub open spec fn escape(q: Seq<char>) -> Seq<char>
    decreases q.len(),
{
    if q.len() == 0 {
        Seq::empty()
    } else {
        escaped_char(q[0]) + escape(q.drop_first())
    }
}

/// The pattern for words that begin with `q`.
pub open spec fn like_pattern(q: Seq<char>) -> Seq<char> {
    escape(q).push('%')
}

proof fn lemma_escape_push(q: Seq<char>, c: char)
    ensures
        escape(q.push(c)) == escape(q) + escaped_char(c),
    decreases q.len(),
{
    if q.len() == 0 {
        assert(q.push(c).drop_first() =~= Seq::<char>::empty());
        assert(q.push(c)[0] == c);
        assert(escape(Seq::<char>::empty()) =~= Seq::<char>::empty());
        assert(escape(q) =~= Seq::<char>::empty());
        assert(escape(q.push(c)) =~= escaped_char(c) + Seq::<char>::empty());
        assert(escape(q.push(c)) =~= escaped_char(c));
    } else {
        assert(q.push(c).drop_first() =~= q.drop_first().push(c));
        lemma_escape_push(q.drop_first(), c);
        assert(escape(q.push(c)) =~= escape(q) + escaped_char(c));
    }
}

/// The pattern that selects the words beginning with `query`: its wildcard
/// characters and the escape character escaped, then `%`.
pub fn build_like_query(query: &str) -> (r: String)
    ensures
        r@ == like_pattern(query@),
{
    let n = query.unicode_len();
    let mut r = String::new();
    let mut i: usize = 0;
    proof {
        assert(query@.subrange(0, 0) =~= Seq::<char>::empty());
    }
    while i < n
        invariant
            n == query@.len(),
            i <= n,
            r@ == escape(query@.subrange(0, i as int)),
        decreases n - i,
    {
        let c = query.get_char(i);
        proof {
            assert(query@.subrange(0, i + 1) =~= query@.subrange(0, i as int).push(c));
            lemma_escape_push(query@.subrange(0, i as int), c);
        }
        if c == '%' {
            proof {
                reveal_strlit("\\%");
            }
            r.append("\\%");
        } else if c == '_' {
            proof {
                reveal_strlit("\\_");
            }
            r.append("\\_");
        } else if c == '\\' {
            proof {
                reveal_strlit("\\\\");
            }
            r.append("\\\\");
        } else {
            let one = query.substring_char(i, i + 1);
            assert(one@ =~= seq![c]);
            r.append(one);
        }
        i += 1;
    }
    assert(query@.subrange(0, n as int) =~= query@);
    proof {
        reveal_strlit("%");
    }
    r.append("%");
    r
}

proof fn lemma_percent_matches_all(t: Seq<char>)
    ensures
        like_matches(seq!['%'], t),
    decreases t.len(),
{
    assert(seq!['%'].drop_first() =~= Seq::<char>::empty());
    assert(seq!['%'][0] == '%');
    if t.len() > 0 {
        lemma_percent_matches_all(t.drop_first());
    } else {
        assert(like_matches(seq!['%'].drop_first(), t));
    }
}

/// The prefix pattern of a fragment matches a word exactly when the word
/// begins with the fragment, whatever wildcard characters the fragment holds.
pub proof fn lemma_like_pattern_is_prefix(q: Seq<char>, t: Seq<char>)
    ensures
        like_matches(like_pattern(q), t) <==> is_prefix(q, t),
    decreases q.len(),
{
    if q.len() == 0 {
        assert(like_pattern(q) =~= seq!['%']);
        lemma_percent_matches_all(t);
        assert(t.subrange(0, 0) =~= q);
    } else {
        let c = q[0];
        let rest = q.drop_first();
        let p = like_pattern(q);
        assert(p =~= escaped_char(c) + like_pattern(rest));
        if t.len() > 0 {
            lemma_like_pattern_is_prefix(rest, t.drop_first());
            if is_prefix(q, t) {
                assert(t.subrange(0, q.len() as int)[0] == c);
                assert(t.drop_first().subrange(0, rest.len() as int) =~= rest);
            }
            if t[0] == c && is_prefix(rest, t.drop_first()) {
                assert forall|j: int| 0 <= j < q.len() implies t.subrange(0, q.len() as int)[j]
                    == q[j] by {
                    if j > 0 {
                        assert(t.drop_first().subrange(0, rest.len() as int)[j - 1] == rest[j - 1]);
                    }
                }
                assert(t.subrange(0, q.len() as int) =~= q);
            }
        }
        if is_like_special(c) {
            assert(p.subrange(2, p.len() as int) =~= like_pattern(rest));
        } else {
            assert(p.drop_first() =~= like_pattern(rest));
        }
    }
}

} // verus!
