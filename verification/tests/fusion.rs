use opencontext_core::hit::{MatchType, SearchHit};
use opencontext_core::ranking::take_ranked;
use opencontext_core::searcher::Searcher;

fn found(path: &str, line: Option<usize>, content: &str, by: MatchType, score: i64) -> SearchHit {
    SearchHit {
        file_path: path.to_string(),
        display_name: String::new(),
        content: content.to_string(),
        heading_path: None,
        section_title: None,
        line_start: line,
        line_end: None,
        score,
        matched_by: by,
        hit_count: None,
        doc_count: None,
        folder_path: None,
        aggregate_type: None,
        doc_type: None,
    }
}

fn any_searcher() -> Searcher {
    Searcher::new(vec![]).unwrap()
}

#[test]
fn hybrid_fusion_scenario() {
    let vector = vec![
        found("a/x.md", Some(1), "vx", MatchType::Vector, 900_000_000),
        found("b/z.md", Some(1), "vz", MatchType::Vector, 800_000_000),
    ];
    let keyword = vec![
        found("b/z.md", Some(1), "kz", MatchType::Keyword, 1_000_000_000),
        found("a/x.md", Some(1), "kx", MatchType::Keyword, 500_000_000),
    ];
    let fused = any_searcher().rrf_fusion(vector, keyword, 10);
    assert_eq!(fused.len(), 2);
    assert_eq!(fused[0].file_path, "a/x.md");
    assert_eq!(fused[0].score, 11475409 + 4838709);
    assert_eq!(fused[0].matched_by, MatchType::Hybrid);
    assert_eq!(fused[0].content, "vx");
    assert_eq!(fused[1].file_path, "b/z.md");
    assert_eq!(fused[1].score, 11290322 + 4918032);
    assert_eq!(fused[1].matched_by, MatchType::Hybrid);
    assert_eq!(fused[1].content, "vz");
    let exact = 0.7 / 61.0 + 0.3 / 62.0;
    assert!((fused[0].score as f64 / 1e9 - exact).abs() < 3e-9);
}

#[test]
fn same_top_in_both_lists() {
    let vector = vec![found("a/x.md", Some(3), "v", MatchType::Vector, 1)];
    let keyword = vec![found("a/x.md", Some(3), "k", MatchType::Keyword, 2)];
    let fused = any_searcher().rrf_fusion(vector, keyword, 5);
    assert_eq!(fused.len(), 1);
    assert_eq!(fused[0].score, 11475409 + 4918032);
    assert!((fused[0].score as f64 / 1e9 - 1.0 / 61.0).abs() < 3e-9);
    assert_eq!(fused[0].matched_by, MatchType::Hybrid);
}

#[test]
fn single_source_keeps_its_mark() {
    let vector = vec![found("a/x.md", Some(1), "v", MatchType::Vector, 1)];
    let keyword = vec![found("b/z.md", Some(1), "k", MatchType::Keyword, 2)];
    let fused = any_searcher().rrf_fusion(vector, keyword, 5);
    assert_eq!(fused.len(), 2);
    assert_eq!((fused[0].file_path.as_str(), fused[0].score, fused[0].matched_by), ("a/x.md", 11475409, MatchType::Vector));
    assert_eq!((fused[1].file_path.as_str(), fused[1].score, fused[1].matched_by), ("b/z.md", 4918032, MatchType::Keyword));
}

#[test]
fn missing_line_counts_as_line_zero() {
    let vector = vec![
        found("a/x.md", None, "first", MatchType::Vector, 1),
        found("a/x.md", Some(0), "second", MatchType::Vector, 1),
        found("a/x.md", Some(7), "third", MatchType::Vector, 1),
    ];
    let fused = any_searcher().rrf_fusion(vector, vec![], 5);
    assert_eq!(fused.len(), 2);
    assert_eq!(fused[0].content, "first");
    assert_eq!(fused[0].score, 11475409 + 11290322);
    assert_eq!(fused[0].matched_by, MatchType::Vector);
    assert_eq!(fused[1].content, "third");
    assert_eq!(fused[1].score, 11111111);
}

#[test]
fn fusion_respects_limit() {
    let vector: Vec<SearchHit> = (0..20).map(|i| found(&format!("v{}.md", i), Some(1), "v", MatchType::Vector, 0)).collect();
    let keyword: Vec<SearchHit> = (0..20).map(|i| found(&format!("k{}.md", i), Some(1), "k", MatchType::Keyword, 0)).collect();
    let searcher = any_searcher();
    let fused = searcher.rrf_fusion(vector.clone(), keyword.clone(), 7);
    assert_eq!(fused.len(), 7);
    for pair in fused.windows(2) {
        assert!(pair[0].score >= pair[1].score);
    }
    assert_eq!(fused[0].file_path, "v0.md");
    assert_eq!(searcher.rrf_fusion(vector.clone(), keyword.clone(), 0).len(), 0);
    assert_eq!(searcher.rrf_fusion(vector, keyword, 100).len(), 40);
    assert_eq!(searcher.rrf_fusion(vec![], vec![], 10).len(), 0);
}

#[test]
fn take_ranked_is_stable() {
    let hits = vec![
        found("a", None, "", MatchType::Vector, 5),
        found("b", None, "", MatchType::Vector, -3),
        found("c", None, "", MatchType::Vector, 9),
        found("d", None, "", MatchType::Vector, 5),
        found("e", None, "", MatchType::Vector, i64::MIN),
        found("f", None, "", MatchType::Vector, i64::MAX),
    ];
    let top = take_ranked(&hits, 10);
    let order: Vec<&str> = top.iter().map(|h| h.file_path.as_str()).collect();
    assert_eq!(order, vec!["f", "c", "a", "d", "b", "e"]);
    assert_eq!(take_ranked(&hits, 2).len(), 2);
    assert_eq!(take_ranked(&hits, 0).len(), 0);
}
