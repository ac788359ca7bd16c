use mocword::aggregate::rank;
use mocword::matcher::{predict, predict_strict, search_like, search_strict, QueryError};
use mocword::normalize::{complete, parse_request, split_words, Request};
use mocword::query::build_like_query;
use mocword::store::{starts_with, GramEntry, NgramStore, StoreError, WordEntry};

fn words(list: &[(u64, &str)]) -> Vec<WordEntry> {
    list.iter()
        .map(|&(id, text)| WordEntry { id, text: text.to_string() })
        .collect()
}

fn grams(list: &[(u64, u64, u64)]) -> Vec<GramEntry> {
    list.iter()
        .map(|&(id, prefix, suffix)| GramEntry { id, prefix, suffix })
        .collect()
}

fn strings(list: &[&str]) -> Vec<String> {
    list.iter().map(|s| s.to_string()).collect()
}

fn cat_store() -> NgramStore {
    NgramStore::new(
        words(&[(1, "the"), (2, "cat"), (3, "cats"), (4, "car")]),
        grams(&[(1, 1, 2)]),
        vec![],
        vec![],
        vec![],
    )
    .unwrap()
}

/// the(1) big(2) red(3) dog(4) ran(5) sat(6) away(7) home(8) fast(9) a_b(10) axb(11) a%c(12)
fn chain_store() -> NgramStore {
    NgramStore::new(
        words(&[
            (1, "the"),
            (2, "big"),
            (3, "red"),
            (4, "dog"),
            (5, "ran"),
            (6, "sat"),
            (7, "away"),
            (8, "home"),
            (9, "fast"),
            (10, "a_b"),
            (11, "axb"),
            (12, "a%c"),
        ]),
        // bigrams: the big, big red, red dog, dog ran, dog sat, dog away
        grams(&[(1, 1, 2), (2, 2, 3), (3, 3, 4), (4, 4, 5), (5, 4, 6), (6, 4, 7)]),
        // trigrams: the big red, big red dog, red dog sat
        grams(&[(1, 1, 3), (2, 2, 4), (3, 3, 6)]),
        // four-grams: the big red dog, big red dog away
        grams(&[(1, 1, 4), (2, 2, 7)]),
        // five-gram: the big red dog home
        grams(&[(1, 1, 8)]),
    )
    .unwrap()
}

#[test]
fn search_ranks_bigram_before_unigram_fallback() {
    let store = cat_store();
    let r = search_like(&store, &strings(&["the", "ca"]), 10).unwrap();
    assert_eq!(r, strings(&["cat", "cats", "car"]));
}

#[test]
fn predict_from_bigram_alone() {
    let store = cat_store();
    let r = predict(&store, &strings(&["the"]), 10).unwrap();
    assert_eq!(r, strings(&["cat"]));
}

#[test]
fn predict_falls_back_to_last_word() {
    let store = NgramStore::new(
        words(&[(1, "w"), (2, "x"), (3, "y"), (4, "z"), (5, "next")]),
        grams(&[(1, 4, 5)]),
        vec![],
        vec![],
        vec![],
    )
    .unwrap();
    let r = predict(&store, &strings(&["w", "x", "y", "z"]), 10).unwrap();
    assert_eq!(r, strings(&["next"]));
}

#[test]
fn predict_walks_every_order() {
    let store = chain_store();
    let r = predict(&store, &strings(&["the", "big", "red", "dog"]), 10).unwrap();
    // five-gram gives home, four-gram gives away, trigram gives sat,
    // bigram gives ran, sat (again), away (again)
    assert_eq!(r, strings(&["home", "away", "sat", "ran"]));
}

#[test]
fn predict_uses_last_four_words() {
    let store = chain_store();
    let long = predict(&store, &strings(&["x", "y", "the", "big", "red", "dog"]), 10).unwrap();
    let short = predict(&store, &strings(&["the", "big", "red", "dog"]), 10).unwrap();
    assert_eq!(long, short);
}

#[test]
fn word_found_twice_is_ranked_once_at_higher_order() {
    let store = chain_store();
    let r = predict(&store, &strings(&["red", "dog"]), 10).unwrap();
    // sat comes from the trigram and again from the bigram
    assert_eq!(r, strings(&["sat", "ran", "away"]));
    assert_eq!(r.iter().filter(|w| w.as_str() == "sat").count(), 1);
}

#[test]
fn search_through_longest_context() {
    let store = chain_store();
    let r = search_like(&store, &strings(&["the", "big", "red", "dog", "h"]), 10).unwrap();
    assert_eq!(r, strings(&["home"]));
    let r = search_like(&store, &strings(&["the", "big", "red", "dog", "a"]), 10).unwrap();
    assert_eq!(r, strings(&["away", "a_b", "axb", "a%c"]));
}

#[test]
fn search_every_prefix_of_known_word() {
    let store = chain_store();
    for p in ["s", "sa", "sat"] {
        let r = search_like(&store, &strings(&["red", "dog", p]), 10).unwrap();
        assert_eq!(r[0], "sat");
    }
}

#[test]
fn underscore_and_percent_are_literal() {
    let store = chain_store();
    let r = search_like(&store, &strings(&["a_"]), 10).unwrap();
    assert_eq!(r, strings(&["a_b"]));
    let r = search_like(&store, &strings(&["a%"]), 10).unwrap();
    assert_eq!(r, strings(&["a%c"]));
}

#[test]
fn like_pattern_escapes_wildcards() {
    assert_eq!(build_like_query("ca"), "ca%");
    assert_eq!(build_like_query(""), "%");
    assert_eq!(build_like_query("a_b%c"), "a\\_b\\%c%");
    assert_eq!(build_like_query("x\\y"), "x\\\\y%");
}

#[test]
fn limit_bounds_answer() {
    let store = chain_store();
    let q = strings(&["the", "big", "red", "dog"]);
    assert_eq!(predict(&store, &q, 0).unwrap(), Vec::<String>::new());
    assert_eq!(predict(&store, &q, 1).unwrap(), strings(&["home"]));
    assert_eq!(predict(&store, &q, 2).unwrap(), strings(&["home", "away"]));
    assert_eq!(predict(&store, &q, 100).unwrap().len(), 4);
    assert_eq!(search_like(&store, &strings(&["a"]), 2).unwrap(), strings(&["away", "a_b"]));
}

#[test]
fn same_request_same_answer() {
    let store = chain_store();
    let q = strings(&["red", "dog", "a"]);
    let a = search_like(&store, &q, 10).unwrap();
    let b = search_like(&store, &q, 10).unwrap();
    assert_eq!(a, b);
}

#[test]
fn matching_is_case_sensitive() {
    let store = cat_store();
    assert_eq!(search_like(&store, &strings(&["Ca"]), 10).unwrap(), Vec::<String>::new());
    assert_eq!(predict(&store, &strings(&["The"]), 10).unwrap(), Vec::<String>::new());
}

#[test]
fn no_match_is_empty_not_error() {
    let store = cat_store();
    assert_eq!(predict(&store, &strings(&["cat"]), 10).unwrap(), Vec::<String>::new());
    assert_eq!(search_like(&store, &strings(&["zz"]), 10).unwrap(), Vec::<String>::new());
}

#[test]
fn empty_query_is_refused() {
    let store = cat_store();
    assert_eq!(predict(&store, &vec![], 10), Err(QueryError::EmptyQuery));
    assert_eq!(search_like(&store, &vec![], 10), Err(QueryError::EmptyQuery));
    assert_eq!(complete(&store, "   ", 10), Err(QueryError::EmptyQuery));
}

#[test]
fn dangling_reference_is_reported() {
    let store = NgramStore::new(
        words(&[(1, "the"), (2, "cat")]),
        grams(&[(1, 1, 2), (2, 1, 9)]),
        vec![],
        vec![],
        vec![],
    )
    .unwrap();
    assert_eq!(
        predict(&store, &strings(&["the"]), 10),
        Err(QueryError::Store(StoreError::DanglingReference))
    );
    assert_eq!(
        store.match_next(&strings(&["the"])),
        Err(StoreError::DanglingReference)
    );
    // unigram search reads no reference
    assert_eq!(search_like(&store, &strings(&["c"]), 10).unwrap(), strings(&["cat"]));
}

#[test]
fn unordered_ids_are_refused() {
    let r = NgramStore::new(words(&[(2, "b"), (1, "a")]), vec![], vec![], vec![], vec![]);
    assert!(matches!(r, Err(StoreError::UnorderedIds)));
    let r = NgramStore::new(
        words(&[(1, "a"), (2, "b")]),
        grams(&[(1, 1, 2), (1, 2, 1)]),
        vec![],
        vec![],
        vec![],
    );
    assert!(matches!(r, Err(StoreError::UnorderedIds)));
}

#[test]
fn store_lookups_follow_the_chain() {
    let store = chain_store();
    assert_eq!(
        store.match_next(&strings(&["the", "big", "red"])).unwrap(),
        strings(&["dog"])
    );
    assert_eq!(
        store.match_prefix(&strings(&["dog"]), &"a".to_string()).unwrap(),
        strings(&["away"])
    );
    assert_eq!(
        store.match_prefix(&vec![], &"r".to_string()).unwrap(),
        strings(&["red", "ran"])
    );
}

#[test]
fn rank_keeps_first_occurrences() {
    let r = rank(strings(&["b", "a", "b", "c", "a"]), 10);
    assert_eq!(r, strings(&["b", "a", "c"]));
    assert_eq!(rank(strings(&["b", "a", "b", "c"]), 2), strings(&["b", "a"]));
}

#[test]
fn prefix_test_compares_characters() {
    assert!(starts_with(&"cats".to_string(), &"cat".to_string()));
    assert!(starts_with(&"cat".to_string(), &"".to_string()));
    assert!(!starts_with(&"ca".to_string(), &"cat".to_string()));
    assert!(!starts_with(&"cut".to_string(), &"ca".to_string()));
}

#[test]
fn lines_split_at_white_space_runs() {
    assert_eq!(split_words("  the \t big  red"), strings(&["the", "big", "red"]));
    assert_eq!(split_words(""), Vec::<String>::new());
    assert_eq!(split_words("a\u{3000}b"), strings(&["a", "b"]));
}

#[test]
fn trailing_space_asks_for_next_word() {
    match parse_request("the big ") {
        Request::Predict(q) => assert_eq!(q, strings(&["the", "big"])),
        Request::Search(_) => panic!("expected a prediction"),
    }
    match parse_request("the bi") {
        Request::Search(q) => assert_eq!(q, strings(&["the", "bi"])),
        Request::Predict(_) => panic!("expected a search"),
    }
}

#[test]
fn complete_picks_the_mode() {
    let store = cat_store();
    assert_eq!(complete(&store, "the ", 10).unwrap(), strings(&["cat"]));
    assert_eq!(complete(&store, "the ca", 10).unwrap(), strings(&["cat", "cats", "car"]));
}

#[test]
fn resolve_exact_descends_the_chain() {
    let store = chain_store();
    assert_eq!(store.resolve_exact(&strings(&["dog"])), Ok(Some(4)));
    assert_eq!(store.resolve_exact(&strings(&["red", "dog"])), Ok(Some(3)));
    assert_eq!(store.resolve_exact(&strings(&["big", "red", "dog", "away"])), Ok(Some(2)));
    assert_eq!(
        store.resolve_exact(&strings(&["the", "big", "red", "dog", "home"])),
        Ok(Some(1))
    );
    assert_eq!(store.resolve_exact(&strings(&["dog", "red"])), Ok(None));
    assert_eq!(store.resolve_exact(&strings(&["cow"])), Ok(None));
}

#[test]
fn strict_mode_has_no_fallback() {
    let store = chain_store();
    let q = strings(&["the", "big", "red", "dog"]);
    assert_eq!(predict_strict(&store, &q, 10).unwrap(), strings(&["home"]));
    let r = predict_strict(&store, &strings(&["x", "dog"]), 10).unwrap();
    assert_eq!(r, Vec::<String>::new());
    let r = search_strict(&store, &strings(&["the", "ca"]), 10).unwrap();
    assert_eq!(r, Vec::<String>::new());
    let r = search_strict(&store, &strings(&["dog", "a"]), 10).unwrap();
    assert_eq!(r, strings(&["away"]));
    assert_eq!(predict_strict(&store, &vec![], 10), Err(QueryError::EmptyQuery));
    assert_eq!(search_strict(&store, &vec![], 10), Err(QueryError::EmptyQuery));
}
