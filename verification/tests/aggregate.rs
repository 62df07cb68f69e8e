use opencontext_core::hit::{MatchType, SearchHit};
use opencontext_core::searcher::Searcher;

fn scored(path: &str, content: &str, score: i64) -> SearchHit {
    SearchHit {
        file_path: path.to_string(),
        display_name: "ignored".to_string(),
        content: content.to_string(),
        heading_path: Some(format!("{} heading", content)),
        section_title: Some(format!("{} title", content)),
        line_start: Some(content.len()),
        line_end: Some(content.len() + 5),
        score,
        matched_by: MatchType::Keyword,
        hit_count: None,
        doc_count: None,
        folder_path: None,
        aggregate_type: None,
        doc_type: Some("idea".to_string()),
    }
}

fn any_searcher() -> Searcher {
    Searcher::new(vec![]).unwrap()
}

#[test]
fn doc_aggregation_scenario() {
    let hits = vec![
        scored("b/z.md", "z1", 900_000_000),
        scored("a/x.md", "x1", 400_000_000),
        scored("a/x.md", "x2", 500_000_000),
        scored("a/x.md", "x3", 300_000_000),
    ];
    let docs = any_searcher().aggregate_by_doc(hits, 10);
    assert_eq!(docs.len(), 2);
    assert_eq!(docs[0].file_path, "b/z.md");
    assert_eq!(docs[0].hit_count, Some(1));
    assert_eq!(docs[0].score, 612_000_000);
    assert_eq!(docs[0].display_name, "z");
    assert_eq!(docs[1].file_path, "a/x.md");
    assert_eq!(docs[1].hit_count, Some(3));
    assert_eq!(docs[1].score, 420_000_000);
    assert_eq!(docs[1].display_name, "x");
    assert_eq!(docs[1].content, "x2");
    assert_eq!(docs[1].heading_path, Some("x2 heading".to_string()));
    assert_eq!(docs[1].section_title, Some("x2 title".to_string()));
    assert_eq!(docs[1].line_start, Some(2));
    assert_eq!(docs[1].line_end, Some(7));
    assert_eq!(docs[1].matched_by, MatchType::Keyword);
    assert_eq!(docs[1].doc_type, Some("idea".to_string()));
    assert_eq!(docs[1].doc_count, None);
    assert_eq!(docs[1].folder_path, None);
    assert_eq!(docs[1].aggregate_type, Some("doc".to_string()));
}

#[test]
fn doc_score_formula() {
    for (count, want) in [(1usize, 680), (2, 760), (3, 840), (4, 920), (5, 1000), (6, 1000), (50, 1000)] {
        let hits: Vec<SearchHit> = (0..count).map(|_| scored("d.md", "c", 1000)).collect();
        let docs = any_searcher().aggregate_by_doc(hits, 10);
        assert_eq!(docs.len(), 1);
        assert_eq!(docs[0].score, want);
        assert_eq!(docs[0].hit_count, Some(count));
    }
    let docs = any_searcher().aggregate_by_doc(vec![scored("d.md", "c", 7)], 10);
    assert_eq!(docs[0].score, 4);
}

#[test]
fn doc_keeps_first_of_equal_best_chunks() {
    let hits = vec![scored("a.md", "one", 5), scored("a.md", "two", 8), scored("a.md", "three", 8)];
    let docs = any_searcher().aggregate_by_doc(hits, 10);
    assert_eq!(docs[0].content, "two");
}

#[test]
fn doc_with_negative_scores_shows_its_best_chunk() {
    let hits = vec![scored("a/x.md", "first", -500_000_000), scored("a/x.md", "second", -200_000_000)];
    let docs = any_searcher().aggregate_by_doc(hits, 10);
    assert_eq!(docs.len(), 1);
    assert_eq!(docs[0].content, "second");
    assert_eq!(docs[0].score, -152_000_000);
    assert_eq!(docs[0].hit_count, Some(2));
    assert!((docs[0].score as f64 / 1e9 - (-0.2 * 0.6 + 0.4 * -0.2 * 0.4)).abs() < 1e-6);
}

#[test]
fn doc_without_positive_score_shows_highest_chunk() {
    let hits = vec![scored("a.md", "one", -5), scored("a.md", "two", 0), scored("a.md", "three", -1)];
    let docs = any_searcher().aggregate_by_doc(hits, 10);
    assert_eq!(docs.len(), 1);
    assert_eq!(docs[0].content, "two");
    assert_eq!(docs[0].score, 0);
    assert_eq!(docs[0].hit_count, Some(3));
    let hits = vec![scored("a.md", "one", -7), scored("a.md", "two", -7), scored("a.md", "three", -9)];
    let docs = any_searcher().aggregate_by_doc(hits, 10);
    assert_eq!(docs[0].content, "one");
    assert_eq!(docs[0].score, -5);
}

#[test]
fn negative_scores_round_towards_zero() {
    for (top, count, want) in [(-7i64, 1usize, -4i64), (-1000, 3, -840), (-1, 1, 0), (-1, 5, -1), (i64::MIN, 5, i64::MIN), (i64::MIN, 1, -6271892985061247549)] {
        let hits: Vec<SearchHit> = (0..count).map(|_| scored("d.md", "c", top)).collect();
        let docs = any_searcher().aggregate_by_doc(hits, 10);
        assert_eq!(docs[0].score, want);
    }
    let docs = any_searcher().aggregate_by_doc(vec![scored("d.md", "c", i64::MAX)], 10);
    assert_eq!(docs[0].score, 6271892985061247548);
}

#[test]
fn folder_with_negative_scores_shows_its_best_chunk() {
    let hits = vec![
        scored("a/x.md", "first", -500_000_000),
        scored("a/y.md", "second", -200_000_000),
        scored("a/x.md", "third", -300_000_000),
    ];
    let folders = any_searcher().aggregate_by_folder(hits, 10);
    assert_eq!(folders.len(), 1);
    assert_eq!(folders[0].content, "second");
    assert_eq!(folders[0].file_path, "a/y.md");
    assert_eq!(folders[0].hit_count, Some(3));
    assert_eq!(folders[0].doc_count, Some(2));
    assert_eq!(folders[0].score, -144_666_666);
}

#[test]
fn folder_aggregation_scenario() {
    let hits = vec![
        scored("a/x.md", "x1", 700_000_000),
        scored("root.md", "r1", 600_000_000),
        scored("a/y.md", "y1", 800_000_000),
        scored("a/x.md", "x2", 100_000_000),
    ];
    let folders = any_searcher().aggregate_by_folder(hits, 10);
    assert_eq!(folders.len(), 2);
    assert_eq!(folders[0].folder_path, Some("a".to_string()));
    assert_eq!(folders[0].display_name, "a");
    assert_eq!(folders[0].hit_count, Some(3));
    assert_eq!(folders[0].doc_count, Some(2));
    assert_eq!(folders[0].score, 578_666_666);
    assert_eq!(folders[0].file_path, "a/y.md");
    assert_eq!(folders[0].content, "y1");
    assert_eq!(folders[0].aggregate_type, Some("folder".to_string()));
    assert_eq!(folders[1].folder_path, Some(".".to_string()));
    assert_eq!(folders[1].display_name, "(root)");
    assert_eq!(folders[1].hit_count, Some(1));
    assert_eq!(folders[1].doc_count, Some(1));
    assert_eq!(folders[1].score, 358_000_000);
    assert_eq!(folders[1].file_path, "root.md");
}

#[test]
fn folder_score_formula() {
    let make = |hits: usize, docs: usize| -> Vec<SearchHit> {
        (0..hits).map(|i| scored(&format!("f/d{}.md", i % docs), "c", 3000)).collect()
    };
    for (hits, docs, want) in [(1usize, 1usize, 1790), (2, 1, 1880), (2, 2, 2080), (3, 3, 2370), (10, 3, 3000), (12, 5, 3000), (10, 1, 2600)] {
        let folders = any_searcher().aggregate_by_folder(make(hits, docs), 10);
        assert_eq!(folders.len(), 1);
        assert_eq!(folders[0].score, want);
        assert_eq!(folders[0].hit_count, Some(hits));
        assert_eq!(folders[0].doc_count, Some(docs));
    }
}

#[test]
fn nested_folder_shows_last_segment() {
    let folders = any_searcher().aggregate_by_folder(vec![scored("notes/2024/plan.md", "p", 10)], 10);
    assert_eq!(folders[0].folder_path, Some("notes/2024".to_string()));
    assert_eq!(folders[0].display_name, "2024");
}

#[test]
fn aggregated_score_never_exceeds_top_score() {
    let mut hits = Vec::new();
    for d in 0..7usize {
        for c in 0..(d + 1) {
            hits.push(scored(&format!("f{}/d{}.md", d % 3, d), "c", (d * 37 + c * 11) as i64 * 1_000_003));
        }
    }
    let searcher = any_searcher();
    for doc in searcher.aggregate_by_doc(hits.clone(), 100) {
        let top = hits.iter().filter(|h| h.file_path == doc.file_path).map(|h| h.score).max().unwrap();
        assert!(doc.score <= top);
        assert!(doc.score >= top * 6 / 10);
    }
    for folder in searcher.aggregate_by_folder(hits.clone(), 100) {
        let name = folder.folder_path.clone().unwrap();
        let top = hits.iter().filter(|h| h.file_path.starts_with(&format!("{}/", name))).map(|h| h.score).max().unwrap();
        assert!(folder.score <= top);
        assert!(folder.score >= top / 2);
    }
}

#[test]
fn aggregation_respects_limit() {
    let hits: Vec<SearchHit> = (0..12).map(|i| scored(&format!("f{}/d{}.md", i, i), "c", 100 + i)).collect();
    let searcher = any_searcher();
    let docs = searcher.aggregate_by_doc(hits.clone(), 5);
    assert_eq!(docs.len(), 5);
    assert_eq!(docs[0].file_path, "f11/d11.md");
    assert_eq!(searcher.aggregate_by_folder(hits.clone(), 3).len(), 3);
    assert_eq!(searcher.aggregate_by_doc(hits.clone(), 0).len(), 0);
    assert_eq!(searcher.aggregate_by_folder(hits, 100).len(), 12);
    assert_eq!(searcher.aggregate_by_doc(vec![], 10).len(), 0);
}

#[test]
fn equal_group_scores_keep_first_seen_order() {
    let hits = vec![scored("b.md", "b", 50), scored("a.md", "a", 50), scored("c.md", "c", 50)];
    let docs = any_searcher().aggregate_by_doc(hits, 10);
    let order: Vec<&str> = docs.iter().map(|h| h.file_path.as_str()).collect();
    assert_eq!(order, vec!["b.md", "a.md", "c.md"]);
}
