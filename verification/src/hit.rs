//! The chunk record that every stage of a search reads and produces.

use vstd::prelude::*;

verus! {

/// One unit of relevance: a score of `SCORE_ONE` stands for 1.0.
///
/// Scores are fixed-point numbers with nine decimal places, so that every
/// formula of the ranking is exact integer arithmetic.
pub const SCORE_ONE: i64 = 1_000_000_000;

/// Which retrieval path produced a hit.
#[derive(Clone, Copy, Debug, PartialEq, Eq, Structural)]
pub enum MatchType {
    Vector,
    Keyword,
    Hybrid,
}

/// A chunk of a document, scored against a query.
#[derive(Debug, PartialEq, Eq)]
pub struct SearchHit {
    /// Document-relative path, slash-separated.
    pub file_path: String,
    /// Leaf of the path without its `.md` suffix, or the folder's name.
    pub display_name: String,
    /// The chunk text.
    pub content: String,
    /// Breadcrumb of the headings around the chunk.
    pub heading_path: Option<String>,
    /// Heading of the chunk's own section.
    pub section_title: Option<String>,
    pub line_start: Option<usize>,
    pub line_end: Option<usize>,
    /// Relevance in units of `SCORE_ONE`.
    pub score: i64,
    pub matched_by: MatchType,
    /// Number of chunks rolled up into this hit.
    pub hit_count: Option<usize>,
    /// Number of documents rolled up into this hit.
    pub doc_count: Option<usize>,
    pub folder_path: Option<String>,
    /// `"doc"` or `"folder"` on a rolled-up hit.
    pub aggregate_type: Option<String>,
    /// Category tag of the document; `"doc"` when absent.
    pub doc_type: Option<String>,
}

/// The mathematical content of a [`SearchHit`].
pub ghost struct HitView {
    pub file_path: Seq<char>,
    pub display_name: Seq<char>,
    pub content: Seq<char>,
    pub heading_path: Option<Seq<char>>,
    pub section_title: Option<Seq<char>>,
    pub line_start: Option<usize>,
    pub line_end: Option<usize>,
    pub score: i64,
    pub matched_by: MatchType,
    pub hit_count: Option<usize>,
    pub doc_count: Option<usize>,
    pub folder_path: Option<Seq<char>>,
    pub aggregate_type: Option<Seq<char>>,
    pub doc_type: Option<Seq<char>>,
}

/// The characters of an optional string.
pub open spec fn opt_chars(text: Option<String>) -> Option<Seq<char>> {
    match text {
        Some(s) => Some(s@),
        None => None,
    }
}

impl View for SearchHit {
    type V = HitView;

    open spec fn view(&self) -> HitView {
        HitView {
            file_path: self.file_path@,
            display_name: self.display_name@,
            content: self.content@,
            heading_path: opt_chars(self.heading_path),
            section_title: opt_chars(self.section_title),
            line_start: self.line_start,
            line_end: self.line_end,
            score: self.score,
            matched_by: self.matched_by,
            hit_count: self.hit_count,
            doc_count: self.doc_count,
            folder_path: opt_chars(self.folder_path),
            aggregate_type: opt_chars(self.aggregate_type),
            doc_type: opt_chars(self.doc_type),
        }
    }
}

/// The contents of a list of hits, hit by hit.
pub open spec fn hit_views(hits: Seq<SearchHit>) -> Seq<HitView> {
    Seq::new(hits.len(), |i: int| hits[i]@)
}

/// A copy of an optional string.
pub fn clone_text(text: &Option<String>) -> (copy: Option<String>)
    ensures
        opt_chars(copy) == opt_chars(*text),
{
    match text {
        Some(s) => Some(s.clone()),
        None => None,
    }
}

impl Clone for SearchHit {
    fn clone(&self) -> (copy: Self)
        ensures
            copy@ == self@,
    {
        SearchHit {
            file_path: self.file_path.clone(),
            display_name: self.display_name.clone(),
            content: self.content.clone(),
            heading_path: clone_text(&self.heading_path),
            section_title: clone_text(&self.section_title),
            line_start: self.line_start,
            line_end: self.line_end,
            score: self.score,
            matched_by: self.matched_by,
            hit_count: self.hit_count,
            doc_count: self.doc_count,
            folder_path: clone_text(&self.folder_path),
            aggregate_type: clone_text(&self.aggregate_type),
            doc_type: clone_text(&self.doc_type),
        }
    }
}

} // verus!
