use algorithmik3::posting::MovieIndex;
use algorithmik3::search_engine::{
    galloping_search_movie, InvertedIndecies, MapTrait, NaiveSearchEngine, TermMap,
};

type Index = InvertedIndecies<TermMap>;

fn strings(items: &[&str]) -> Vec<String> {
    items.iter().map(|s| s.to_string()).collect()
}

fn sample_corpus() -> Vec<String> {
    strings(&[
        "Alien\tA crew in deep space",
        "Cars\tRacing cars race fast",
    ])
}

fn posting(movie_index: usize, rank_title: u8, rank_desc: u8) -> MovieIndex {
    let mut p = MovieIndex::new(movie_index);
    p.rank_title = rank_title;
    p.rank_desc = rank_desc;
    p
}

#[test]
fn query_matching_title_word() {
    let ix = Index::from_lines(&sample_corpus()).unwrap();
    let result = ix.query(&strings(&["cars"]));
    assert_eq!(result, vec!["Cars".to_string()]);
}

#[test]
fn query_with_absent_term_is_empty() {
    let ix = Index::from_lines(&sample_corpus()).unwrap();
    let result = ix.query(&strings(&["the", "cars"]));
    assert_eq!(result, Vec::<String>::new());
}

#[test]
fn query_single_letter_token() {
    let ix = Index::from_lines(&sample_corpus()).unwrap();
    let result = ix.query(&strings(&["a"]));
    assert_eq!(result, vec!["Alien".to_string()]);
}

#[test]
fn query_multi_term_intersection() {
    let ix = Index::from_lines(&sample_corpus()).unwrap();
    let result = ix.query(&strings(&["racing", "fast"]));
    assert_eq!(result, vec!["Cars".to_string()]);
    let none = ix.query(&strings(&["racing", "space"]));
    assert_eq!(none, Vec::<String>::new());
}

#[test]
fn query_empty_word_list() {
    let ix = Index::from_lines(&sample_corpus()).unwrap();
    assert_eq!(ix.query(&Vec::new()), Vec::<String>::new());
}

#[test]
fn empty_corpus_is_a_valid_index() {
    let ix = Index::from_lines(&Vec::new()).unwrap();
    assert_eq!(ix.movies.len(), 0);
    assert_eq!(ix.query(&strings(&["anything"])), Vec::<String>::new());
}

#[test]
fn record_without_tab_is_reported() {
    let lines = strings(&["Good\tfine", "missing delimiter", "Late\talso fine"]);
    let err = match Index::from_lines(&lines) {
        Ok(_) => panic!("expected a malformed-record error"),
        Err(e) => e,
    };
    assert_eq!(err.line, 1);
}

#[test]
fn repeated_title_word_merges_into_one_posting() {
    // The merge law: a term seen twice in one document's title yields a
    // single posting whose title counter is exactly 2.
    let ix = Index::from_lines(&strings(&["Race race\tslow here"])).unwrap();
    let list = ix.indecies.get(&"race".to_string()).unwrap();
    assert_eq!(list.len(), 1);
    assert_eq!(list[0].movie_index, 0);
    assert_eq!(list[0].rank_title, 2);
    assert_eq!(list[0].rank_desc, 0);
}

#[test]
fn title_and_description_counted_separately() {
    let ix = Index::from_lines(&strings(&["Cars\tcars and more cars"])).unwrap();
    let list = ix.indecies.get(&"cars".to_string()).unwrap();
    assert_eq!(list.len(), 1);
    assert_eq!(list[0].rank_title, 1);
    assert_eq!(list[0].rank_desc, 2);
}

#[test]
fn ranking_prefers_title_hits() {
    // "star" is a title word of one document and a description word of the
    // other: the title hit must come out first.
    let lines = strings(&[
        "Nebula\ta star far away",
        "Star\tbright in the sky",
    ]);
    let ix = Index::from_lines(&lines).unwrap();
    let result = ix.query(&strings(&["star"]));
    assert_eq!(result, vec!["Star".to_string(), "Nebula".to_string()]);
}

#[test]
fn query_ranked_is_sorted_best_first() {
    let lines = strings(&[
        "Nebula\ta star far away",
        "Star\tbright in the sky",
        "Starry Star\tstar star star",
    ]);
    let ix = Index::from_lines(&lines).unwrap();
    let ranked = ix.query_ranked(&strings(&["star"]));
    assert_eq!(ranked.len(), 3);
    for w in ranked.windows(2) {
        assert!(w[0].rank() >= w[1].rank());
    }
    assert_eq!(ranked[0].movie_index, 2);
}

#[test]
fn normalization_applies_to_queries_too() {
    let ix = Index::from_lines(&sample_corpus()).unwrap();
    let result = ix.query(&strings(&["CARS!!"]));
    assert_eq!(result, vec!["Cars".to_string()]);
}

#[test]
fn galloping_movie_combines_matching_documents() {
    let a = vec![posting(1, 1, 2), posting(4, 0, 3), posting(9, 2, 0)];
    let b = vec![posting(0, 1, 0), posting(4, 1, 1), posting(9, 0, 1)];
    let r = galloping_search_movie(&a, &b);
    assert_eq!(r.len(), 2);
    assert_eq!(r[0].movie_index, 4);
    assert_eq!(r[0].rank_title, 1);
    assert_eq!(r[0].rank_desc, 4);
    assert_eq!(r[1].movie_index, 9);
    assert_eq!(r[1].rank_title, 2);
    assert_eq!(r[1].rank_desc, 1);
}

#[test]
fn galloping_movie_single_entry_boundary() {
    // One entry on each side, same document: exactly one combined posting.
    let a = vec![posting(5, 2, 1)];
    let b = vec![posting(5, 1, 3)];
    let r = galloping_search_movie(&a, &b);
    assert_eq!(r.len(), 1);
    assert_eq!(r[0].movie_index, 5);
    assert_eq!(r[0].rank_title, 3);
    assert_eq!(r[0].rank_desc, 4);
}

#[test]
fn galloping_movie_empty_sides() {
    let a = vec![posting(1, 1, 1)];
    let empty: Vec<MovieIndex> = Vec::new();
    assert_eq!(galloping_search_movie(&a, &empty).len(), 0);
    assert_eq!(galloping_search_movie(&empty, &a).len(), 0);
}

#[test]
fn term_map_get_and_upsert() {
    let mut m = TermMap::new();
    let key = "term".to_string();
    assert!(m.get(&key).is_none());
    m.upsert(&key, 0, true);
    m.upsert(&key, 0, false);
    m.upsert(&key, 2, false);
    let list = m.get(&key).unwrap();
    assert_eq!(list.len(), 2);
    assert_eq!(list[0].movie_index, 0);
    assert_eq!(list[0].rank_title, 1);
    assert_eq!(list[0].rank_desc, 1);
    assert_eq!(list[1].movie_index, 2);
    assert_eq!(list[1].rank_desc, 1);
}

#[test]
fn term_map_insert_replaces() {
    let mut m = TermMap::new();
    let key = "k".to_string();
    m.insert(key.clone(), vec![posting(0, 1, 0)]);
    m.insert(key.clone(), vec![posting(3, 0, 1), posting(5, 1, 1)]);
    let list = m.get(&key).unwrap();
    assert_eq!(list.len(), 2);
    assert_eq!(list[0].movie_index, 3);
}

#[test]
fn naive_engine_matches_description_words() {
    let engine = NaiveSearchEngine::from_lines(&sample_corpus()).unwrap();
    let result = engine.query(&strings(&["crew"]));
    assert_eq!(result, vec!["Alien".to_string()]);
}

#[test]
fn naive_engine_requires_every_word() {
    let engine = NaiveSearchEngine::from_lines(&sample_corpus()).unwrap();
    assert_eq!(
        engine.query(&strings(&["racing", "fast"])),
        vec!["Cars".to_string()]
    );
    assert_eq!(
        engine.query(&strings(&["racing", "crew"])),
        Vec::<String>::new()
    );
}

#[test]
fn naive_engine_agrees_with_index_on_matches() {
    // The brute-force engine is the oracle: on single-term queries both
    // engines must find the same documents.
    let corpus = strings(&[
        "Alien\tA crew in deep space",
        "Cars\tRacing cars race fast",
        "Space Race\tthe crew races into space",
    ]);
    let ix = Index::from_lines(&corpus).unwrap();
    let oracle = NaiveSearchEngine::from_lines(&corpus).unwrap();
    for term in ["crew", "space", "race", "fast", "nothing"] {
        let words = strings(&[term]);
        let mut from_index = ix.query(&words);
        let mut from_scan = oracle.query(&words);
        from_index.sort();
        from_scan.sort();
        assert_eq!(from_index, from_scan);
    }
}

#[test]
fn naive_engine_reports_missing_tab() {
    let err = match NaiveSearchEngine::from_lines(&strings(&["no tab here"])) {
        Ok(_) => panic!("expected a malformed-record error"),
        Err(e) => e,
    };
    assert_eq!(err.line, 0);
}
