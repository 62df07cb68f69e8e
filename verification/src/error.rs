//! What can go wrong in a search.

use vstd::prelude::*;
use vstd::string::StringExecFns;

verus! {

/// A failed search, by the part that failed.
#[derive(Debug, PartialEq, Eq)]
pub enum SearchError {
    /// A configuration value is missing or malformed.
    Config(String),
    /// The embedding provider failed.
    Embedding(String),
    /// The vector store failed.
    VectorStore(String),
    /// The index is unusable.
    Index(String),
    /// The search pipeline failed.
    Search(String),
    /// An input or output fault.
    Io(String),
    /// A fault of the HTTP transport.
    Http(String),
    /// A malformed JSON document.
    Json(String),
    /// A fault of the storage engine.
    Lance(String),
    /// No index has been built yet.
    IndexNotBuilt,
    /// No API key is configured.
    ApiKeyMissing,
}

/// The mathematical content of a [`SearchError`].
pub ghost enum ErrorView {
    Config(Seq<char>),
    Embedding(Seq<char>),
    VectorStore(Seq<char>),
    Index(Seq<char>),
    Search(Seq<char>),
    Io(Seq<char>),
    Http(Seq<char>),
    Json(Seq<char>),
    Lance(Seq<char>),
    IndexNotBuilt,
    ApiKeyMissing,
}

impl View for SearchError {
    type V = ErrorView;

    open spec fn view(&self) -> ErrorView {
        match self {
            SearchError::Config(m) => ErrorView::Config(m@),
            SearchError::Embedding(m) => ErrorView::Embedding(m@),
            SearchError::VectorStore(m) => ErrorView::VectorStore(m@),
            SearchError::Index(m) => ErrorView::Index(m@),
            SearchError::Search(m) => ErrorView::Search(m@),
            SearchError::Io(m) => ErrorView::Io(m@),
            SearchError::Http(m) => ErrorView::Http(m@),
            SearchError::Json(m) => ErrorView::Json(m@),
            SearchError::Lance(m) => ErrorView::Lance(m@),
            SearchError::IndexNotBuilt => ErrorView::IndexNotBuilt,
            SearchError::ApiKeyMissing => ErrorView::ApiKeyMissing,
        }
    }
}

impl SearchError {
    /// The message shown for this error.
    pub open spec fn text(&self) -> Seq<char> {
        match self {
            SearchError::Config(m) => "Configuration error: "@ + m@,
            SearchError::Embedding(m) => "Embedding API error: "@ + m@,
            SearchError::VectorStore(m) => "Vector store error: "@ + m@,
            SearchError::Index(m) => "Index error: "@ + m@,
            SearchError::Search(m) => "Search error: "@ + m@,
            SearchError::Io(m) => "IO error: "@ + m@,
            SearchError::Http(m) => "HTTP error: "@ + m@,
            SearchError::Json(m) => "JSON error: "@ + m@,
            SearchError::Lance(m) => "LanceDB error: "@ + m@,
            SearchError::IndexNotBuilt => "Index not built. Run 'oc index build' first."@,
            SearchError::ApiKeyMissing => "API key not configured. Set OPENAI_API_KEY or configure in ~/.opencontext/config.toml"@,
        }
    }

    /// The message shown for this error.
    pub fn message(&self) -> (text: String)
        ensures
            text@ == self.text(),
    {
        match self {
            SearchError::Config(m) => "Configuration error: ".to_owned().concat(m.as_str()),
            SearchError::Embedding(m) => "Embedding API error: ".to_owned().concat(m.as_str()),
            SearchError::VectorStore(m) => "Vector store error: ".to_owned().concat(m.as_str()),
            SearchError::Index(m) => "Index error: ".to_owned().concat(m.as_str()),
            SearchError::Search(m) => "Search error: ".to_owned().concat(m.as_str()),
            SearchError::Io(m) => "IO error: ".to_owned().concat(m.as_str()),
            SearchError::Http(m) => "HTTP error: ".to_owned().concat(m.as_str()),
            SearchError::Json(m) => "JSON error: ".to_owned().concat(m.as_str()),
            SearchError::Lance(m) => "LanceDB error: ".to_owned().concat(m.as_str()),
            SearchError::IndexNotBuilt => "Index not built. Run 'oc index build' first.".to_owned(),
            SearchError::ApiKeyMissing => "API key not configured. Set OPENAI_API_KEY or configure in ~/.opencontext/config.toml".to_owned(),
        }
    }
}

} // verus!
