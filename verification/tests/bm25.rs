use opencontext_core::bm25::{Bm25Index, Scored};
use opencontext_core::hit::{MatchType, SearchHit, SCORE_ONE};
use opencontext_core::logarithm::{log2, LOG_ONE};
use opencontext_core::ranking::rank;
use opencontext_core::searcher::Searcher;

fn chunk(path: &str, content: &str, heading: Option<&str>) -> SearchHit {
    SearchHit {
        file_path: path.to_string(),
        display_name: String::new(),
        content: content.to_string(),
        heading_path: heading.map(|h| h.to_string()),
        section_title: None,
        line_start: Some(1),
        line_end: Some(9),
        score: 0,
        matched_by: MatchType::Vector,
        hit_count: None,
        doc_count: None,
        folder_path: None,
        aggregate_type: None,
        doc_type: None,
    }
}

fn corpus() -> Vec<SearchHit> {
    vec![
        chunk("a/x.md", "hello world from the first chunk", Some("Intro")),
        chunk("a/y.md", "数据库 systems store data", None),
        chunk("b/z.md", "another chunk about world peace", Some("Notes > World")),
        chunk("root.md", "nothing to see here", None),
    ]
}

fn terms(list: &[&str]) -> Vec<String> {
    list.iter().map(|s| s.to_string()).collect()
}

fn docs() -> Vec<Vec<String>> {
    vec![
        terms(&["hello", "world", "from", "the", "first", "chunk", "intro"]),
        terms(&["数", "数据", "据", "据库", "库", "systems", "store", "data"]),
        terms(&["another", "chunk", "about", "world", "peace", "notes", "world"]),
        terms(&["nothing", "to", "see", "here"]),
    ]
}

#[test]
fn log2_of_powers_of_two_is_exact() {
    assert_eq!(log2(1), 0);
    assert_eq!(log2(2), LOG_ONE);
    assert_eq!(log2(4), 2 * LOG_ONE);
    assert_eq!(log2(1 << 40), 40 * LOG_ONE);
    assert_eq!(log2(1 << 62), 62 * LOG_ONE);
}

#[test]
fn log2_exact_values() {
    assert_eq!(log2(3), 26591258);
    assert_eq!(log2(5), 38955489);
    assert_eq!(log2(10), 55732705);
    assert_eq!(log2(1000), 167198115);
}

#[test]
fn log2_is_close_to_the_real_logarithm() {
    let mut x: u64 = 1;
    while x < (1u64 << 62) {
        let real = (x as f64).log2() * LOG_ONE as f64;
        let got = log2(x) as f64;
        assert!((got - real).abs() <= 2.0, "log2({}) = {} but {}", x, got, real);
        x = x + x / 3 + 1;
    }
}

#[test]
fn log2_never_decreases() {
    let mut last = 0;
    for x in 1..5000u64 {
        let now = log2(x);
        assert!(now >= last);
        last = now;
    }
}

#[test]
fn rank_orders_by_weight_then_position() {
    assert_eq!(rank(&vec![5, 9, 5, 0, 9]), vec![1, 4, 0, 2, 3]);
    assert_eq!(rank(&vec![]), Vec::<usize>::new());
    assert_eq!(rank(&vec![u128::MAX, 0, u128::MAX]), vec![0, 2, 1]);
}

#[test]
fn raw_scores_exact() {
    let index = Bm25Index::build(&docs()).unwrap();
    assert_eq!(index.len(), 4);
    assert_eq!(index.scores(&terms(&["hello"])), vec![28252385, 0, 0, 0]);
    assert_eq!(index.scores(&terms(&["world"])), vec![16265368, 0, 22580158, 0]);
    assert_eq!(index.scores(&terms(&["world", "peace"])), vec![16265368, 0, 50832543, 0]);
    assert_eq!(index.scores(&terms(&["数", "数据", "据"])), vec![0, 79882944, 0, 0]);
    assert_eq!(index.scores(&terms(&[])), vec![0, 0, 0, 0]);
}

#[test]
fn repeated_query_terms_count_twice() {
    let index = Bm25Index::build(&docs()).unwrap();
    assert_eq!(index.scores(&terms(&["hello", "hello"])), vec![2 * 28252385, 0, 0, 0]);
}

#[test]
fn raw_scores_follow_the_real_formula() {
    let docs = docs();
    let index = Bm25Index::build(&docs).unwrap();
    let query = terms(&["world", "peace", "chunk", "data"]);
    let raw = index.scores(&query);
    let n = docs.len() as f64;
    let avg = docs.iter().map(|d| d.len()).sum::<usize>() as f64 / n;
    for (i, doc) in docs.iter().enumerate() {
        let mut want = 0.0f64;
        for t in &query {
            let tf = doc.iter().filter(|x| *x == t).count() as f64;
            if tf == 0.0 {
                continue;
            }
            let df = docs.iter().filter(|d| d.contains(t)).count() as f64;
            let idf = ((n - df + 0.5) / (df + 0.5) + 1.0).log2();
            want += idf * tf * 2.2 / (tf + 1.2 * (0.25 + 0.75 * doc.len() as f64 / avg));
        }
        let got = raw[i] as f64 / LOG_ONE as f64;
        assert!((got - want).abs() < 1e-6, "chunk {}: {} but {}", i, got, want);
    }
}

#[test]
fn index_search_ranks_and_scales() {
    let index = Bm25Index::build(&docs()).unwrap();
    let found = index.search(&terms(&["world", "peace"]), 10);
    assert_eq!(
        found,
        vec![
            Scored { position: 2, score: SCORE_ONE },
            Scored { position: 0, score: 319979428 },
        ]
    );
    assert_eq!(index.search(&terms(&["world", "peace"]), 1), vec![Scored { position: 2, score: SCORE_ONE }]);
    assert_eq!(index.search(&terms(&["world", "peace"]), 0), vec![]);
    assert_eq!(index.search(&terms(&["absent"]), 10), vec![]);
    assert_eq!(index.search(&terms(&[]), 10), vec![]);
}

#[test]
fn empty_index_finds_nothing() {
    let index = Bm25Index::build(&vec![]).unwrap();
    assert_eq!(index.len(), 0);
    assert_eq!(index.search(&terms(&["hello"]), 10), vec![]);
    let blank = Bm25Index::build(&vec![vec![], vec![]]).unwrap();
    assert_eq!(blank.scores(&terms(&["hello"])), vec![0, 0]);
}

#[test]
fn equal_scores_keep_corpus_order() {
    let same = terms(&["alpha", "beta"]);
    let index = Bm25Index::build(&vec![same.clone(), terms(&["gamma"]), same.clone()]).unwrap();
    let found = index.search(&terms(&["alpha"]), 10);
    assert_eq!(found.len(), 2);
    assert_eq!((found[0].position, found[0].score), (0, SCORE_ONE));
    assert_eq!((found[1].position, found[1].score), (2, SCORE_ONE));
}

#[test]
fn keyword_only_scenario() {
    let searcher = Searcher::new(corpus()).unwrap();
    let hits = searcher.keyword_search("hello", 10);
    assert_eq!(hits.len(), 1);
    assert_eq!(hits[0].file_path, "a/x.md");
    assert_eq!(hits[0].score, SCORE_ONE);
    assert_eq!(hits[0].matched_by, MatchType::Keyword);
    assert_eq!(hits[0].content, "hello world from the first chunk");
    assert_eq!(hits[0].heading_path, Some("Intro".to_string()));
    assert_eq!(hits[0].line_start, Some(1));
}

#[test]
fn cjk_bigram_scenario() {
    let searcher = Searcher::new(corpus()).unwrap();
    let hits = searcher.keyword_search("数据", 10);
    assert_eq!(hits.len(), 1);
    assert_eq!(hits[0].file_path, "a/y.md");
    assert_eq!(hits[0].score, SCORE_ONE);
}

#[test]
fn heading_path_is_searched() {
    let searcher = Searcher::new(corpus()).unwrap();
    let hits = searcher.keyword_search("intro", 10);
    assert_eq!(hits.len(), 1);
    assert_eq!(hits[0].file_path, "a/x.md");
    let hits = searcher.keyword_search("NOTES", 10);
    assert_eq!(hits.len(), 1);
    assert_eq!(hits[0].file_path, "b/z.md");
}

#[test]
fn keyword_scores_are_normalized() {
    let searcher = Searcher::new(corpus()).unwrap();
    for query in ["world", "the world", "chunk data", "world peace hello nothing"] {
        let hits = searcher.keyword_search(query, 10);
        assert!(!hits.is_empty());
        assert_eq!(hits[0].score, SCORE_ONE);
        for pair in hits.windows(2) {
            assert!(pair[0].score >= pair[1].score);
        }
        for hit in &hits {
            assert!(hit.score > 0 && hit.score <= SCORE_ONE);
            assert_eq!(hit.matched_by, MatchType::Keyword);
        }
    }
}

#[test]
fn keyword_scores_exact() {
    let searcher = Searcher::new(corpus()).unwrap();
    let hits = searcher.keyword_search("the world", 10);
    assert_eq!(hits.len(), 2);
    assert_eq!((hits[0].file_path.as_str(), hits[0].score), ("a/x.md", SCORE_ONE));
    assert_eq!((hits[1].file_path.as_str(), hits[1].score), ("b/z.md", 507216930));
    let hits = searcher.keyword_search("world", 10);
    assert_eq!((hits[0].file_path.as_str(), hits[0].score), ("b/z.md", SCORE_ONE));
    assert_eq!((hits[1].file_path.as_str(), hits[1].score), ("a/x.md", 720338981));
}

#[test]
fn keyword_search_respects_limit() {
    let searcher = Searcher::new(corpus()).unwrap();
    assert_eq!(searcher.keyword_search("world", 1).len(), 1);
    assert_eq!(searcher.keyword_search("world", 0).len(), 0);
    assert_eq!(searcher.keyword_search("world", 2).len(), 2);
    assert_eq!(searcher.keyword_search("world", usize::MAX).len(), 2);
}

#[test]
fn keyword_search_edge_cases() {
    let searcher = Searcher::new(corpus()).unwrap();
    assert!(searcher.keyword_search("", 10).is_empty());
    assert!(searcher.keyword_search("?! x", 10).is_empty());
    assert!(searcher.keyword_search("unknownterm", 10).is_empty());
    let empty = Searcher::new(vec![]).unwrap();
    assert_eq!(empty.chunk_count(), 0);
    assert!(empty.keyword_search("hello", 10).is_empty());
}

#[test]
fn duplicate_of_top_chunk_keeps_its_score() {
    let mut chunks = corpus();
    let before = Searcher::new(corpus()).unwrap().keyword_search("world peace", 10);
    assert_eq!(before[0].file_path, "b/z.md");
    chunks.push(chunk("b/z.md", "another chunk about world peace", Some("Notes > World")));
    let after = Searcher::new(chunks).unwrap().keyword_search("world peace", 10);
    assert_eq!(after.len(), 3);
    assert_eq!(after[0].file_path, "b/z.md");
    assert!(after[0].score >= before[0].score);
    assert_eq!(after[1].file_path, "b/z.md");
    assert_eq!(after[1].score, SCORE_ONE);
    assert_eq!((after[2].file_path.as_str(), after[2].score), ("a/x.md", 332255539));
}

#[test]
fn keyword_search_terms_takes_ready_terms() {
    let searcher = Searcher::new(corpus()).unwrap();
    let hits = searcher.keyword_search_terms(&terms(&["world", "peace"]), 10);
    assert_eq!(hits.len(), 2);
    assert_eq!(hits[1].score, 319979428);
    let upper = searcher.keyword_search_terms(&terms(&["WORLD"]), 10);
    assert!(upper.is_empty());
}

#[test]
fn every_chunk_that_shares_a_term_matches() {
    let n = 20000usize;
    let mut docs: Vec<Vec<String>> = (0..n).map(|_| terms(&["common"])).collect();
    let mut long: Vec<String> = (0..2999).map(|i| format!("w{}", i)).collect();
    long.push("common".to_string());
    docs.push(long);
    docs.push(terms(&["other"]));
    let index = Bm25Index::build(&docs).unwrap();
    let raw = index.scores(&terms(&["common"]));
    assert_eq!(raw[0], 1918);
    assert_eq!(raw[n], 1);
    assert_eq!(raw[n + 1], 0);
    let found = index.search(&terms(&["common"]), usize::MAX);
    assert_eq!(found.len(), n + 1);
    assert_eq!(found[n].position, n);
    assert_eq!(found[n].score, 521377);
    assert!(found.iter().all(|hit| hit.position != n + 1));
}
