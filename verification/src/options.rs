//! What a search is asked for, and what it answers.

use vstd::prelude::*;
use crate::hit::{hit_views, opt_chars, HitView, SearchHit};

verus! {

/// The retrieval pipeline of a search.
#[derive(Clone, Copy, Debug, PartialEq, Eq, Structural)]
pub enum SearchMode {
    Vector,
    Keyword,
    Hybrid,
}

/// The granularity of the results.
#[derive(Clone, Copy, Debug, PartialEq, Eq, Structural)]
pub enum AggregateBy {
    /// Chunks, as they were found.
    Content,
    /// One result per document.
    Doc,
    /// One result per folder.
    Folder,
}

/// A search request.
#[derive(Debug, PartialEq, Eq)]
pub struct SearchOptions {
    /// The query; blanks around it are ignored.
    pub query: String,
    pub mode: SearchMode,
    /// The most results wanted.
    pub limit: usize,
    pub aggregate_by: AggregateBy,
    /// `"idea"` keeps ideas only, `"doc"` keeps plain documents only; any
    /// other value keeps everything.
    pub doc_type: Option<String>,
}

/// The mathematical content of a [`SearchOptions`].
pub ghost struct OptionsView {
    pub query: Seq<char>,
    pub mode: SearchMode,
    pub limit: usize,
    pub aggregate_by: AggregateBy,
    pub doc_type: Option<Seq<char>>,
}

impl View for SearchOptions {
    type V = OptionsView;

    open spec fn view(&self) -> OptionsView {
        OptionsView {
            query: self.query@,
            mode: self.mode,
            limit: self.limit,
            aggregate_by: self.aggregate_by,
            doc_type: opt_chars(self.doc_type),
        }
    }
}

impl SearchOptions {
    pub fn limit(&self) -> (limit: usize)
        ensures
            limit == self.limit,
    {
        self.limit
    }

    pub fn mode(&self) -> (mode: SearchMode)
        ensures
            mode == self.mode,
    {
        self.mode
    }

    pub fn aggregate_by(&self) -> (aggregate_by: AggregateBy)
        ensures
            aggregate_by == self.aggregate_by,
    {
        self.aggregate_by
    }
}

/// The answer to a search.
#[derive(Debug, PartialEq, Eq)]
pub struct SearchResults {
    /// The query as it was searched, without the blanks around it.
    pub query: String,
    /// The number of results.
    pub count: usize,
    pub results: Vec<SearchHit>,
    /// `"vector"`, `"keyword"` or `"hybrid"`; absent where nothing was searched.
    pub mode: Option<String>,
    /// `"content"`, `"doc"` or `"folder"`; absent where nothing was searched.
    pub aggregate_by: Option<String>,
    /// Set where no index has been built.
    pub index_missing: Option<bool>,
    /// What went wrong, where the search recovered from it.
    pub error: Option<String>,
}

/// The mathematical content of a [`SearchResults`].
pub ghost struct ResultsView {
    pub query: Seq<char>,
    pub count: usize,
    pub results: Seq<HitView>,
    pub mode: Option<Seq<char>>,
    pub aggregate_by: Option<Seq<char>>,
    pub index_missing: Option<bool>,
    pub error: Option<Seq<char>>,
}

impl View for SearchResults {
    type V = ResultsView;

    open spec fn view(&self) -> ResultsView {
        ResultsView {
            query: self.query@,
            count: self.count,
            results: hit_views(self.results@),
            mode: opt_chars(self.mode),
            aggregate_by: opt_chars(self.aggregate_by),
            index_missing: self.index_missing,
            error: opt_chars(self.error),
        }
    }
}

/// The answer to a blank query.
pub open spec fn empty_results(query: Seq<char>) -> ResultsView {
    ResultsView {
        query,
        count: 0,
        results: Seq::empty(),
        mode: None,
        aggregate_by: None,
        index_missing: None,
        error: None,
    }
}

/// The answer where no index has been built.
pub open spec fn missing_index_results(query: Seq<char>) -> ResultsView {
    ResultsView {
        query,
        count: 0,
        results: Seq::empty(),
        mode: None,
        aggregate_by: None,
        index_missing: Some(true),
        error: Some("Index not built. Run 'oc index build' first."@),
    }
}

impl SearchResults {
    /// The answer to a blank query: no results.
    pub fn empty(query: String) -> (results: SearchResults)
        ensures
            results@ == empty_results(query@),
    {
        let results = SearchResults {
            query,
            count: 0,
            results: Vec::new(),
            mode: None,
            aggregate_by: None,
            index_missing: None,
            error: None,
        };
        assert(results@.results =~= Seq::empty());
        results
    }

    /// The answer where no index has been built: no results, and the marker
    /// that says why.
    pub fn index_not_built(query: String) -> (results: SearchResults)
        ensures
            results@ == missing_index_results(query@),
    {
        let results = SearchResults {
            query,
            count: 0,
            results: Vec::new(),
            mode: None,
            aggregate_by: None,
            index_missing: Some(true),
            error: Some("Index not built. Run 'oc index build' first.".to_owned()),
        };
        assert(results@.results =~= Seq::empty());
        results
    }
}

} // verus!
