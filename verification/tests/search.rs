use opencontext_core::error::SearchError;
use opencontext_core::hit::{MatchType, SearchHit, SCORE_ONE};
use opencontext_core::options::{AggregateBy, SearchMode, SearchOptions, SearchResults};
use opencontext_core::searcher::{SearchEvent, SearchStep, Searcher};

fn piece(path: &str, line: usize, content: &str, doc_type: Option<&str>) -> SearchHit {
    SearchHit {
        file_path: path.to_string(),
        display_name: String::new(),
        content: content.to_string(),
        heading_path: None,
        section_title: None,
        line_start: Some(line),
        line_end: Some(line + 3),
        score: 0,
        matched_by: MatchType::Vector,
        hit_count: None,
        doc_count: None,
        folder_path: None,
        aggregate_type: None,
        doc_type: doc_type.map(|t| t.to_string()),
    }
}

fn fixture() -> Vec<SearchHit> {
    vec![
        piece("a/x.md", 1, "hello world alpha", None),
        piece("a/x.md", 10, "alpha beta gamma", Some("doc")),
        piece("a/x.md", 20, "alpha again", Some("idea")),
        piece("a/y.md", 1, "数据库 alpha", Some("idea")),
        piece("b/z.md", 1, "alpha alpha alpha", Some("note")),
        piece("root.md", 1, "alpha in the root", None),
    ]
}

fn request(query: &str, mode: SearchMode, by: AggregateBy, limit: usize) -> SearchOptions {
    SearchOptions { query: query.to_string(), mode, limit, aggregate_by: by, doc_type: None }
}

fn answered(step: SearchStep) -> SearchResults {
    match step {
        SearchStep::Done(Ok(results)) => results,
        _ => panic!("the search is not answered"),
    }
}

fn keyword_answer(searcher: &Searcher, options: &SearchOptions) -> SearchResults {
    match searcher.search(options, SearchEvent::Start) {
        SearchStep::ProbeIndex => {}
        _ => panic!("the search does not probe the index"),
    }
    answered(searcher.search(options, SearchEvent::IndexProbed(true)))
}

#[test]
fn blank_query_short_circuit() {
    let searcher = Searcher::new(fixture()).unwrap();
    for mode in [SearchMode::Vector, SearchMode::Keyword, SearchMode::Hybrid] {
        let options = request("   ", mode, AggregateBy::Doc, 10);
        let results = answered(searcher.search(&options, SearchEvent::Start));
        assert_eq!(results.count, 0);
        assert!(results.results.is_empty());
        assert_eq!(results.query, "");
        assert_eq!(results.mode, None);
        assert_eq!(results.aggregate_by, None);
        assert_eq!(results.index_missing, None);
        assert_eq!(results.error, None);
    }
    let options = request("\t\n", SearchMode::Hybrid, AggregateBy::Content, 10);
    assert_eq!(answered(searcher.search(&options, SearchEvent::IndexProbed(true))).count, 0);
    assert_eq!(answered(searcher.search(&options, SearchEvent::VectorHits(fixture()))).count, 0);
    assert_eq!(answered(searcher.search(&options, SearchEvent::Failed(SearchError::ApiKeyMissing))).count, 0);
}

#[test]
fn missing_index_is_answered_in_band() {
    let searcher = Searcher::new(fixture()).unwrap();
    let options = request(" alpha ", SearchMode::Keyword, AggregateBy::Content, 10);
    let results = answered(searcher.search(&options, SearchEvent::IndexProbed(false)));
    assert_eq!(results.query, "alpha");
    assert_eq!(results.count, 0);
    assert_eq!(results.index_missing, Some(true));
    assert_eq!(results.error, Some("Index not built. Run 'oc index build' first.".to_string()));
    assert_eq!(results.mode, None);
    let results = answered(searcher.search(&options, SearchEvent::Failed(SearchError::IndexNotBuilt)));
    assert_eq!(results.index_missing, Some(true));
    assert_eq!(results.count, 0);
}

#[test]
fn failures_end_the_search() {
    let searcher = Searcher::new(fixture()).unwrap();
    let options = request("alpha", SearchMode::Vector, AggregateBy::Content, 10);
    match searcher.search(&options, SearchEvent::Failed(SearchError::Embedding("quota".to_string()))) {
        SearchStep::Done(Err(error)) => assert_eq!(error, SearchError::Embedding("quota".to_string())),
        _ => panic!("the failure is not reported"),
    }
    match searcher.search(&options, SearchEvent::Failed(SearchError::ApiKeyMissing)) {
        SearchStep::Done(Err(error)) => assert_eq!(error, SearchError::ApiKeyMissing),
        _ => panic!("the failure is not reported"),
    }
}

#[test]
fn keyword_search_flow() {
    let searcher = Searcher::new(fixture()).unwrap();
    let options = request("  hello ", SearchMode::Keyword, AggregateBy::Content, 10);
    let results = keyword_answer(&searcher, &options);
    assert_eq!(results.query, "hello");
    assert_eq!(results.count, 1);
    assert_eq!(results.results.len(), 1);
    assert_eq!(results.results[0].file_path, "a/x.md");
    assert_eq!(results.results[0].score, SCORE_ONE);
    assert_eq!(results.results[0].matched_by, MatchType::Keyword);
    assert_eq!(results.mode, Some("keyword".to_string()));
    assert_eq!(results.aggregate_by, Some("content".to_string()));
    assert_eq!(results.index_missing, None);
    assert_eq!(results.error, None);
}

#[test]
fn vector_modes_ask_for_candidates() {
    let searcher = Searcher::new(fixture()).unwrap();
    let cases = [
        (SearchMode::Vector, AggregateBy::Content, 10usize, 10usize),
        (SearchMode::Vector, AggregateBy::Doc, 10, 50),
        (SearchMode::Vector, AggregateBy::Folder, 4, 20),
        (SearchMode::Hybrid, AggregateBy::Content, 10, 30),
        (SearchMode::Hybrid, AggregateBy::Doc, 10, 150),
        (SearchMode::Hybrid, AggregateBy::Folder, 1, 15),
        (SearchMode::Hybrid, AggregateBy::Doc, usize::MAX, usize::MAX),
        (SearchMode::Vector, AggregateBy::Doc, usize::MAX / 2, usize::MAX),
    ];
    for (mode, by, limit, want) in cases {
        let options = request(" alpha beta ", mode, by, limit);
        match searcher.search(&options, SearchEvent::IndexProbed(true)) {
            SearchStep::QueryVectors { query, limit } => {
                assert_eq!(query, "alpha beta");
                assert_eq!(limit, want);
            }
            _ => panic!("the vector store is not queried"),
        }
    }
}

#[test]
fn vector_search_flow() {
    let searcher = Searcher::new(fixture()).unwrap();
    let options = request("alpha", SearchMode::Vector, AggregateBy::Content, 2);
    let mut found = fixture();
    for (i, hit) in found.iter_mut().enumerate() {
        hit.score = 900_000_000 - i as i64 * 1000;
        hit.matched_by = MatchType::Keyword;
    }
    let results = answered(searcher.search(&options, SearchEvent::VectorHits(found)));
    assert_eq!(results.count, 2);
    assert_eq!(results.results[0].score, 900_000_000);
    assert_eq!(results.results[0].matched_by, MatchType::Vector);
    assert_eq!(results.results[1].line_start, Some(10));
    assert_eq!(results.results[1].score, 899_999_000);
    assert_eq!(results.mode, Some("vector".to_string()));
}

#[test]
fn hybrid_search_flow() {
    let searcher = Searcher::new(fixture()).unwrap();
    let options = request("hello", SearchMode::Hybrid, AggregateBy::Content, 10);
    let found = vec![piece("b/z.md", 1, "alpha alpha alpha", Some("note")), piece("a/x.md", 1, "hello world alpha", None)];
    let results = answered(searcher.search(&options, SearchEvent::VectorHits(found)));
    assert_eq!(results.count, 2);
    assert_eq!(results.results[0].file_path, "a/x.md");
    assert_eq!(results.results[0].score, 11290322 + 4918032);
    assert_eq!(results.results[0].matched_by, MatchType::Hybrid);
    assert_eq!(results.results[1].file_path, "b/z.md");
    assert_eq!(results.results[1].score, 11475409);
    assert_eq!(results.results[1].matched_by, MatchType::Vector);
    assert_eq!(results.mode, Some("hybrid".to_string()));
}

#[test]
fn doc_type_filter_scenario() {
    let searcher = Searcher::new(fixture()).unwrap();
    let mut options = request("alpha", SearchMode::Keyword, AggregateBy::Content, 10);
    assert_eq!(keyword_answer(&searcher, &options).count, 6);
    options.doc_type = Some("idea".to_string());
    let ideas = keyword_answer(&searcher, &options);
    assert_eq!(ideas.count, 2);
    for hit in &ideas.results {
        assert_eq!(hit.doc_type, Some("idea".to_string()));
    }
    options.doc_type = Some("doc".to_string());
    let docs = keyword_answer(&searcher, &options);
    assert_eq!(docs.count, 3);
    for hit in &docs.results {
        assert!(hit.doc_type.is_none() || hit.doc_type == Some("doc".to_string()));
    }
    options.doc_type = Some("note".to_string());
    assert_eq!(keyword_answer(&searcher, &options).count, 6);
    options.doc_type = Some(String::new());
    assert_eq!(keyword_answer(&searcher, &options).count, 6);
}

#[test]
fn keyword_search_rolled_up_by_doc() {
    let searcher = Searcher::new(fixture()).unwrap();
    let options = request("alpha", SearchMode::Keyword, AggregateBy::Doc, 10);
    let results = keyword_answer(&searcher, &options);
    assert_eq!(results.count, 4);
    assert_eq!(results.aggregate_by, Some("doc".to_string()));
    let x = results.results.iter().find(|h| h.file_path == "a/x.md").unwrap();
    assert_eq!(x.hit_count, Some(3));
    assert_eq!(x.display_name, "x");
    let z = results.results.iter().find(|h| h.file_path == "b/z.md").unwrap();
    assert_eq!(z.hit_count, Some(1));
    for pair in results.results.windows(2) {
        assert!(pair[0].score >= pair[1].score);
    }
}

#[test]
fn keyword_search_rolled_up_by_folder() {
    let searcher = Searcher::new(fixture()).unwrap();
    let options = request("alpha", SearchMode::Keyword, AggregateBy::Folder, 10);
    let results = keyword_answer(&searcher, &options);
    assert_eq!(results.count, 3);
    let a = results.results.iter().find(|h| h.folder_path == Some("a".to_string())).unwrap();
    assert_eq!(a.hit_count, Some(4));
    assert_eq!(a.doc_count, Some(2));
    assert_eq!(a.display_name, "a");
    let root = results.results.iter().find(|h| h.folder_path == Some(".".to_string())).unwrap();
    assert_eq!(root.display_name, "(root)");
    assert_eq!(root.hit_count, Some(1));
}

#[test]
fn results_never_exceed_limit() {
    let searcher = Searcher::new(fixture()).unwrap();
    for by in [AggregateBy::Content, AggregateBy::Doc, AggregateBy::Folder] {
        for limit in 0..8usize {
            let options = request("alpha", SearchMode::Keyword, by, limit);
            let results = keyword_answer(&searcher, &options);
            assert!(results.results.len() <= limit);
            assert_eq!(results.count, results.results.len());
            let options = request("alpha", SearchMode::Hybrid, by, limit);
            let results = answered(searcher.search(&options, SearchEvent::VectorHits(fixture())));
            assert!(results.results.len() <= limit);
            assert_eq!(results.count, results.results.len());
        }
    }
}

#[test]
fn options_accessors() {
    let options = request("q", SearchMode::Hybrid, AggregateBy::Folder, 7);
    assert_eq!(options.limit(), 7);
    assert_eq!(options.mode(), SearchMode::Hybrid);
    assert_eq!(options.aggregate_by(), AggregateBy::Folder);
}

#[test]
fn empty_and_missing_results() {
    let empty = SearchResults::empty("q".to_string());
    assert_eq!((empty.query.as_str(), empty.count, empty.results.len()), ("q", 0, 0));
    assert_eq!(empty.index_missing, None);
    let missing = SearchResults::index_not_built("q".to_string());
    assert_eq!(missing.index_missing, Some(true));
    assert_eq!(missing.error, Some(SearchError::IndexNotBuilt.message()));
}

#[test]
fn error_messages() {
    let m = "boom".to_string();
    assert_eq!(SearchError::Config(m.clone()).message(), "Configuration error: boom");
    assert_eq!(SearchError::Embedding(m.clone()).message(), "Embedding API error: boom");
    assert_eq!(SearchError::VectorStore(m.clone()).message(), "Vector store error: boom");
    assert_eq!(SearchError::Index(m.clone()).message(), "Index error: boom");
    assert_eq!(SearchError::Search(m.clone()).message(), "Search error: boom");
    assert_eq!(SearchError::Io(m.clone()).message(), "IO error: boom");
    assert_eq!(SearchError::Http(m.clone()).message(), "HTTP error: boom");
    assert_eq!(SearchError::Json(m.clone()).message(), "JSON error: boom");
    assert_eq!(SearchError::Lance(m).message(), "LanceDB error: boom");
    assert_eq!(SearchError::IndexNotBuilt.message(), "Index not built. Run 'oc index build' first.");
    assert_eq!(
        SearchError::ApiKeyMissing.message(),
        "API key not configured. Set OPENAI_API_KEY or configure in ~/.opencontext/config.toml"
    );
}
