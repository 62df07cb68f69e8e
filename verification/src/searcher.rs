//! The search executor over an in-memory corpus.
//!
//! A search that needs the vector store is run in steps: [`Searcher::search`]
//! says what to do next, and is called again with what came of it.

use vstd::prelude::*;
use vstd::multiset::Multiset;
use vstd::string::StringExecFns;
use crate::aggregate::{
    doc_keys, doc_rollup, folder_keys, folder_rollup, lemma_rollup_types, typed_like,
};
use crate::groups::lemma_firsts;
use crate::bm25::{fits, found_at, lemma_matches_share_a_term, top_matches, Bm25Index};
use crate::error::{ErrorView, SearchError};
use crate::fusion::fused;
use crate::hit::{hit_views, HitView, MatchType, SearchHit, SCORE_ONE};
use crate::options::{
    empty_results, missing_index_results, AggregateBy, OptionsView, ResultsView, SearchMode,
    SearchOptions, SearchResults,
};
use crate::ranking::{lemma_ranked, ranked};
use crate::text::{lowercased, strs, trim, trimmed};
use crate::tokenizer::tokens_of;

verus! {

/// Runs queries against a corpus of chunks held in memory.
pub struct Searcher {
    /// Every chunk of the corpus, in the order it was loaded.
    pub(crate) all_chunks: Vec<SearchHit>,
    /// The term statistics of the chunks.
    pub(crate) index: Bm25Index,
}

/// The text of a chunk that is searched: its content, a blank, and its
/// heading path where it has one.
pub open spec fn chunk_text(chunk: HitView) -> Seq<char> {
    chunk.content + " "@ + match chunk.heading_path {
        Some(path) => path,
        None => Seq::empty(),
    }
}

/// The scoring terms of a chunk.
pub open spec fn chunk_terms(chunk: HitView) -> Seq<Seq<char>> {
    tokens_of(lowercased(chunk_text(chunk)))
}

/// The term bag of each chunk.
pub open spec fn chunk_bags(chunks: Seq<HitView>) -> Seq<Multiset<Seq<char>>> {
    Seq::new(chunks.len(), |i: int| chunk_terms(chunks[i]).to_multiset())
}

/// The keyword hits for the query terms `terms`: the best `limit` matches,
/// each the chunk with its relative score.
pub open spec fn keyword_hits(chunks: Seq<HitView>, terms: Seq<Seq<char>>, limit: nat) -> Seq<
    HitView,
> {
    let found = top_matches(chunk_bags(chunks), terms, limit);
    Seq::new(
        found.len(),
        |k: int|
            HitView {
                score: found[k].score,
                matched_by: MatchType::Keyword,
                ..chunks[found[k].position as int]
            },
    )
}

/// `limit * factor`, or the largest number where that is out of range.
pub open spec fn times(limit: usize, factor: usize) -> usize {
    if limit * factor <= usize::MAX {
        (limit * factor) as usize
    } else {
        usize::MAX
    }
}

/// How many candidates are retrieved for `limit` results: five times as many
/// where they are rolled up.
pub open spec fn pool(options: OptionsView) -> usize {
    if options.aggregate_by == AggregateBy::Content {
        options.limit
    } else {
        times(options.limit, 5)
    }
}

/// How many hits the vector store is asked for: the candidates, or three
/// times as many where they are fused with keyword hits.
pub open spec fn vector_limit(options: OptionsView) -> usize {
    if options.mode == SearchMode::Hybrid {
        times(pool(options), 3)
    } else {
        pool(options)
    }
}

/// `hits`, each marked as found by the vector store.
pub open spec fn tagged(hits: Seq<HitView>) -> Seq<HitView> {
    Seq::new(hits.len(), |i: int| HitView { matched_by: MatchType::Vector, ..hits[i] })
}

/// Whether the filter `wanted` lets `hit` through.
pub open spec fn keeps(wanted: Option<Seq<char>>, hit: HitView) -> bool {
    match wanted {
        None => true,
        Some(kind) => if kind == "idea"@ {
            hit.doc_type == Some("idea"@)
        } else if kind == "doc"@ {
            hit.doc_type is None || hit.doc_type == Some("doc"@)
        } else {
            true
        },
    }
}

/// Those of the first `n` hits that the filter lets through.
pub open spec fn kept(hits: Seq<HitView>, wanted: Option<Seq<char>>, n: nat) -> Seq<HitView>
    decreases n,
{
    if n == 0 {
        Seq::empty()
    } else if keeps(wanted, hits[n - 1]) {
        kept(hits, wanted, (n - 1) as nat).push(hits[n - 1])
    } else {
        kept(hits, wanted, (n - 1) as nat)
    }
}

/// The best `limit` results at the granularity `by`.
pub open spec fn aggregated(hits: Seq<HitView>, by: AggregateBy, limit: usize) -> Seq<HitView> {
    match by {
        AggregateBy::Content => hits.take(
            if limit < hits.len() {
                limit as int
            } else {
                hits.len() as int
            },
        ),
        AggregateBy::Doc => ranked(doc_rollup(hits), limit as nat),
        AggregateBy::Folder => ranked(folder_rollup(hits), limit as nat),
    }
}

pub open spec fn mode_name(mode: SearchMode) -> Seq<char> {
    match mode {
        SearchMode::Vector => "vector"@,
        SearchMode::Keyword => "keyword"@,
        SearchMode::Hybrid => "hybrid"@,
    }
}

pub open spec fn aggregate_name(by: AggregateBy) -> Seq<char> {
    match by {
        AggregateBy::Content => "content"@,
        AggregateBy::Doc => "doc"@,
        AggregateBy::Folder => "folder"@,
    }
}

/// The hits of the retrieval pipeline of `options` for the query `query`,
/// given what the vector store found.
pub open spec fn retrieved(
    chunks: Seq<HitView>,
    options: OptionsView,
    query: Seq<char>,
    vector: Seq<HitView>,
) -> Seq<HitView> {
    let terms = tokens_of(lowercased(query));
    match options.mode {
        SearchMode::Vector => tagged(vector),
        SearchMode::Keyword => keyword_hits(chunks, terms, pool(options) as nat),
        SearchMode::Hybrid => ranked(
            fused(tagged(vector), keyword_hits(chunks, terms, times(pool(options), 3) as nat)),
            pool(options) as nat,
        ),
    }
}

/// The answer made of the retrieved `hits`: filtered by document type,
/// rolled up, cut at the limit.
pub open spec fn finished(options: OptionsView, query: Seq<char>, hits: Seq<HitView>) -> ResultsView {
    let results = aggregated(
        kept(hits, options.doc_type, hits.len()),
        options.aggregate_by,
        options.limit,
    );
    ResultsView {
        query,
        count: results.len() as usize,
        results,
        mode: Some(mode_name(options.mode)),
        aggregate_by: Some(aggregate_name(options.aggregate_by)),
        index_missing: None,
        error: None,
    }
}

/// Whether `found` vector hits cannot be fused with the keyword hits of the
/// corpus: in a hybrid search, where both together are more than one list
/// can hold.
pub open spec fn overfull(chunks: Seq<HitView>, options: OptionsView, found: nat) -> bool {
    options.mode == SearchMode::Hybrid && found + chunks.len() > usize::MAX
}

/// What has happened since the last step of a search.
pub enum SearchEvent {
    /// Nothing yet: the search begins.
    Start,
    /// The vector store was asked whether an index exists.
    IndexProbed(bool),
    /// The vector store answered the query.
    VectorHits(Vec<SearchHit>),
    /// The embedding provider or the vector store failed.
    Failed(SearchError),
}

/// What a search does next.
pub enum SearchStep {
    /// Ask the vector store whether an index exists.
    ProbeIndex,
    /// Embed `query` and ask the vector store for `limit` hits.
    QueryVectors { query: String, limit: usize },
    /// The search is over.
    Done(Result<SearchResults, SearchError>),
}

/// The mathematical content of a [`SearchStep`].
pub ghost enum StepView {
    ProbeIndex,
    QueryVectors { query: Seq<char>, limit: usize },
    Answered(ResultsView),
    Failed(ErrorView),
}

impl View for SearchStep {
    type V = StepView;

    open spec fn view(&self) -> StepView {
        match self {
            SearchStep::ProbeIndex => StepView::ProbeIndex,
            SearchStep::QueryVectors { query, limit } => StepView::QueryVectors {
                query: query@,
                limit: *limit,
            },
            SearchStep::Done(Ok(results)) => StepView::Answered(results@),
            SearchStep::Done(Err(error)) => StepView::Failed(error@),
        }
    }
}

/// The step that follows `event` in a search for `options` over `chunks`.
///
/// A blank query is answered at once, with nothing. Otherwise the index is
/// probed first; without one the answer says so. A keyword search is then
/// answered from the corpus alone, the other modes query the vector store
/// and are answered when its hits arrive. A failure ends the search, but for
/// a missing index, which is answered like a failed probe. A hybrid search
/// also fails where the vector hits and the corpus together are more than
/// one list can hold.
pub open spec fn next_step(chunks: Seq<HitView>, options: OptionsView, event: SearchEvent) -> StepView {
    let query = trimmed(options.query);
    if query.len() == 0 {
        StepView::Answered(empty_results(query))
    } else {
        match event {
            SearchEvent::Start => StepView::ProbeIndex,
            SearchEvent::IndexProbed(exists) => if !exists {
                StepView::Answered(missing_index_results(query))
            } else if options.mode == SearchMode::Keyword {
                StepView::Answered(
                    finished(options, query, retrieved(chunks, options, query, Seq::empty())),
                )
            } else {
                StepView::QueryVectors { query, limit: vector_limit(options) }
            },
            SearchEvent::VectorHits(hits) => if overfull(chunks, options, hits@.len()) {
                StepView::Failed(ErrorView::Search("too many candidates to fuse"@))
            } else {
                StepView::Answered(
                    finished(options, query, retrieved(chunks, options, query, hit_views(hits@))),
                )
            },
            SearchEvent::Failed(error) => if error is IndexNotBuilt {
                StepView::Answered(missing_index_results(query))
            } else {
                StepView::Failed(error@)
            },
        }
    }
}

/// A query of white space only is answered at the first step, with no
/// results, whatever the other options are: neither the index nor the
/// vector store is asked.
pub proof fn lemma_blank_query(chunks: Seq<HitView>, options: OptionsView)
    requires
        crate::text::is_blank(options.query),
    ensures
        next_step(chunks, options, SearchEvent::Start) == StepView::Answered(
            empty_results(trimmed(options.query)),
        ),
        empty_results(trimmed(options.query)).count == 0,
{
    crate::text::lemma_blank_trims_to_nothing(options.query);
}

/// The filter lets through what it keeps, in order, and nothing else.
pub proof fn lemma_kept(hits: Seq<HitView>, wanted: Option<Seq<char>>, n: nat)
    requires
        n <= hits.len(),
    ensures
        kept(hits, wanted, n).len() <= n,
        forall|j: int|
            0 <= j < kept(hits, wanted, n).len() ==> keeps(wanted, #[trigger] kept(hits, wanted, n)[j])
                && hits.contains(kept(hits, wanted, n)[j]),
    decreases n,
{
    if n > 0 {
        lemma_kept(hits, wanted, (n - 1) as nat);
        assert(hits.contains(hits[n - 1]));
    }
}

/// A filter that is neither `"idea"` nor `"doc"` keeps every hit, as no
/// filter does.
pub proof fn lemma_other_filter(hits: Seq<HitView>, wanted: Option<Seq<char>>, n: nat)
    requires
        n <= hits.len(),
        wanted matches Some(kind) ==> kind != "idea"@ && kind != "doc"@,
    ensures
        kept(hits, wanted, n) == hits.take(n as int),
        kept(hits, wanted, n) == kept(hits, None, n),
    decreases n,
{
    if n > 0 {
        lemma_other_filter(hits, wanted, (n - 1) as nat);
        assert(hits.take(n as int) =~= hits.take(n - 1).push(hits[n - 1]));
    } else {
        assert(hits.take(0) =~= Seq::<HitView>::empty());
    }
}

/// Document type filter: every result of an answer passes the filter of
/// its request. With `"idea"` every result is an idea, with `"doc"` every
/// result is a plain document or has no type, and any other filter gives
/// the answer that no filter gives.
pub proof fn lemma_results_pass_filter(options: OptionsView, query: Seq<char>, hits: Seq<HitView>)
    requires
        hits.len() <= usize::MAX,
    ensures
        forall|k: int|
            0 <= k < finished(options, query, hits).results.len() ==> keeps(
                options.doc_type,
                #[trigger] finished(options, query, hits).results[k],
            ),
        options.doc_type == Some("idea"@) ==> forall|k: int|
            0 <= k < finished(options, query, hits).results.len() ==> (#[trigger] finished(
                options,
                query,
                hits,
            ).results[k]).doc_type == Some("idea"@),
        options.doc_type == Some("doc"@) ==> forall|k: int|
            0 <= k < finished(options, query, hits).results.len() ==> {
                let tag = (#[trigger] finished(options, query, hits).results[k]).doc_type;
                tag is None || tag == Some("doc"@)
            },
        (options.doc_type matches Some(kind) ==> kind != "idea"@ && kind != "doc"@) ==> finished(
            options,
            query,
            hits,
        ) == finished(OptionsView { doc_type: None, ..options }, query, hits),
{
    let rest = kept(hits, options.doc_type, hits.len());
    let results = finished(options, query, hits).results;
    lemma_kept(hits, options.doc_type, hits.len());
    lemma_rollup_types(rest);
    lemma_firsts(doc_keys(rest), rest.len());
    lemma_firsts(folder_keys(rest), rest.len());
    lemma_ranked(doc_rollup(rest), options.limit as nat);
    lemma_ranked(folder_rollup(rest), options.limit as nat);
    assert forall|k: int| 0 <= k < results.len() implies keeps(
        options.doc_type,
        #[trigger] results[k],
    ) by {
        match options.aggregate_by {
            AggregateBy::Content => {
                assert(results[k] == rest[k]);
            },
            AggregateBy::Doc => {
                let rolled = doc_rollup(rest);
                assert(rolled.contains(results[k]));
                let g = choose|g: int| 0 <= g < rolled.len() && rolled[g] == results[k];
                assert(typed_like(rest, rolled[g]));
                let b = choose|b: int|
                    0 <= b < rest.len() && (#[trigger] rest[b]).doc_type == rolled[g].doc_type;
                assert(keeps(options.doc_type, rest[b]));
            },
            AggregateBy::Folder => {
                let rolled = folder_rollup(rest);
                assert(rolled.contains(results[k]));
                let g = choose|g: int| 0 <= g < rolled.len() && rolled[g] == results[k];
                assert(typed_like(rest, rolled[g]));
                let b = choose|b: int|
                    0 <= b < rest.len() && (#[trigger] rest[b]).doc_type == rolled[g].doc_type;
                assert(keeps(options.doc_type, rest[b]));
            },
        }
    }
    reveal_strlit("idea");
    reveal_strlit("doc");
    assert("idea"@ != "doc"@) by {
        assert("idea"@.len() == 4);
        assert("doc"@.len() == 3);
    }
    if options.doc_type matches Some(kind) ==> kind != "idea"@ && kind != "doc"@ {
        lemma_other_filter(hits, options.doc_type, hits.len());
    }
}

/// With room for the whole corpus, a chunk is a keyword hit exactly when
/// its terms and the query terms have a term in common.
pub proof fn lemma_keyword_hits_share_a_term(
    chunks: Seq<HitView>,
    terms: Seq<Seq<char>>,
    limit: nat,
    i: int,
)
    requires
        chunks.len() <= usize::MAX,
        terms.len() <= usize::MAX,
        limit >= chunks.len(),
        0 <= i < chunks.len(),
    ensures
        found_at(top_matches(chunk_bags(chunks), terms, limit), i) <==> exists|j: int|
            0 <= j < terms.len() && chunk_terms(chunks[i]).contains(#[trigger] terms[j]),
        keyword_hits(chunks, terms, limit).len() == top_matches(chunk_bags(chunks), terms, limit).len(),
{
    broadcast use vstd::seq_lib::group_to_multiset_ensures;

    let docs = chunk_bags(chunks);
    lemma_matches_share_a_term(docs, terms, limit, i);
    if crate::bm25::shares_term(docs[i], terms, terms.len()) {
        let j = choose|j: int| 0 <= j < terms.len() && docs[i].count(#[trigger] terms[j]) > 0;
        assert(chunk_terms(chunks[i]).contains(terms[j]));
    }
    if exists|j: int| 0 <= j < terms.len() && chunk_terms(chunks[i]).contains(#[trigger] terms[j]) {
        let j = choose|j: int|
            0 <= j < terms.len() && chunk_terms(chunks[i]).contains(#[trigger] terms[j]);
        assert(docs[i].count(terms[j]) > 0);
    }
}

fn saturating(limit: usize, factor: usize) -> (product: usize)
    ensures
        product == times(limit, factor),
{
    match limit.checked_mul(factor) {
        Some(product) => product,
        None => usize::MAX,
    }
}

fn candidates(options: &SearchOptions) -> (count: usize)
    ensures
        count == pool(options@),
{
    match options.aggregate_by {
        AggregateBy::Content => options.limit,
        _ => saturating(options.limit, 5),
    }
}

fn tag_vector(hits: &Vec<SearchHit>) -> (marked: Vec<SearchHit>)
    ensures
        hit_views(marked@) == tagged(hit_views(hits@)),
{
    let mut marked: Vec<SearchHit> = Vec::new();
    let mut i: usize = 0;
    while i < hits.len()
        invariant
            i <= hits.len(),
            marked.len() == i,
            forall|j: int|
                0 <= j < i ==> (#[trigger] marked[j])@ == (HitView {
                    matched_by: MatchType::Vector,
                    ..hits[j]@
                }),
        decreases hits.len() - i,
    {
        let mut hit = hits[i].clone();
        hit.matched_by = MatchType::Vector;
        marked.push(hit);
        i = i + 1;
    }
    assert(hit_views(marked@) =~= tagged(hit_views(hits@)));
    marked
}

fn passes(wanted: &Option<String>, hit: &SearchHit) -> (yes: bool)
    ensures
        yes == keeps(crate::hit::opt_chars(*wanted), hit@),
{
    match wanted {
        None => true,
        Some(kind) => {
            let idea = "idea".to_owned();
            let doc = "doc".to_owned();
            if *kind == idea {
                match &hit.doc_type {
                    Some(tag) => *tag == idea,
                    None => false,
                }
            } else if *kind == doc {
                match &hit.doc_type {
                    Some(tag) => *tag == doc,
                    None => true,
                }
            } else {
                true
            }
        },
    }
}

fn filter_type(hits: &Vec<SearchHit>, wanted: &Option<String>) -> (rest: Vec<SearchHit>)
    ensures
        hit_views(rest@) == kept(hit_views(hits@), crate::hit::opt_chars(*wanted), hits.len() as nat),
{
    let ghost views = hit_views(hits@);
    let ghost want = crate::hit::opt_chars(*wanted);
    let mut rest: Vec<SearchHit> = Vec::new();
    let mut i: usize = 0;
    assert(hit_views(rest@) =~= kept(views, want, 0));
    while i < hits.len()
        invariant
            i <= hits.len(),
            views == hit_views(hits@),
            want == crate::hit::opt_chars(*wanted),
            hit_views(rest@) == kept(views, want, i as nat),
        decreases hits.len() - i,
    {
        if passes(wanted, &hits[i]) {
            let ghost before = hit_views(rest@);
            rest.push(hits[i].clone());
            assert(hit_views(rest@) =~= before.push(views[i as int]));
        }
        i = i + 1;
    }
    rest
}

fn first_hits(hits: &Vec<SearchHit>, limit: usize) -> (top: Vec<SearchHit>)
    ensures
        hit_views(top@) == hit_views(hits@).take(
            if limit < hits.len() {
                limit as int
            } else {
                hits.len() as int
            },
        ),
        top.len() <= limit,
{
    let mut top: Vec<SearchHit> = Vec::new();
    let mut i: usize = 0;
    while i < hits.len() && i < limit
        invariant
            i <= hits.len(),
            i <= limit,
            top.len() == i,
            forall|j: int| 0 <= j < i ==> (#[trigger] top[j])@ == hits[j]@,
        decreases hits.len() - i,
    {
        top.push(hits[i].clone());
        i = i + 1;
    }
    assert(hit_views(top@) =~= hit_views(hits@).take(i as int));
    top
}

impl Searcher {
    #[verifier::type_invariant]
    spec fn indexed(self) -> bool {
        self.index.wf() && self.index@ == chunk_bags(hit_views(self.all_chunks@))
    }

    /// The chunks of the corpus, in the order they were loaded.
    pub closed spec fn chunks(&self) -> Seq<HitView> {
        hit_views(self.all_chunks@)
    }

    /// A searcher over `all_chunks`. A corpus of more than `CORPUS_LIMIT`
    /// chunks or scoring terms is refused.
    pub fn new(all_chunks: Vec<SearchHit>) -> (made: Result<Searcher, SearchError>)
        ensures
            made is Ok <==> fits(chunk_bags(hit_views(all_chunks@))),
            made is Ok ==> made->Ok_0.chunks() == hit_views(all_chunks@),
            made is Err ==> made->Err_0 is Index,
    {
        let ghost views = hit_views(all_chunks@);
        let mut docs: Vec<Vec<String>> = Vec::new();
        let mut i: usize = 0;
        while i < all_chunks.len()
            invariant
                i <= all_chunks.len(),
                views == hit_views(all_chunks@),
                docs.len() == i,
                forall|j: int| 0 <= j < i ==> strs((#[trigger] docs[j])@) == chunk_terms(views[j]),
            decreases all_chunks.len() - i,
        {
            let chunk = &all_chunks[i];
            let mut text = chunk.content.clone();
            text.append(" ");
            match &chunk.heading_path {
                Some(path) => {
                    text.append(path.as_str());
                },
                None => {
                    assert(text@ + Seq::<char>::empty() =~= text@);
                },
            }
            assert(text@ == chunk_text(views[i as int]));
            docs.push(Searcher::tokenize(text.as_str()));
            i = i + 1;
        }
        assert(crate::bm25::doc_bags(docs@) =~= chunk_bags(views));
        match Bm25Index::build(&docs) {
            Some(index) => Ok(Searcher { all_chunks, index }),
            None => Err(SearchError::Index("the corpus is too large to index".to_owned())),
        }
    }

    /// The number of chunks in the corpus.
    pub fn chunk_count(&self) -> (count: usize)
        ensures
            count == self.chunks().len(),
    {
        self.all_chunks.len()
    }

    /// The hits for the query terms `terms`: the best `limit` matches, best
    /// first, each the chunk with its score relative to the best.
    pub fn keyword_search_terms(&self, terms: &Vec<String>, limit: usize) -> (hits: Vec<SearchHit>)
        ensures
            hit_views(hits@) == keyword_hits(self.chunks(), strs(terms@), limit as nat),
            hits.len() <= limit,
            hits.len() <= self.chunks().len(),
            forall|k: int| 0 <= k < hits.len() ==> 0 < (#[trigger] hits[k]).score <= SCORE_ONE,
            hits.len() > 0 ==> hits[0].score == SCORE_ONE,
            forall|k: int| 0 <= k < hits.len() ==> (#[trigger] hits[k]).matched_by == MatchType::Keyword,
    {
        proof {
            use_type_invariant(self);
        }
        let found = self.index.search(terms, limit);
        let mut hits: Vec<SearchHit> = Vec::new();
        let mut k: usize = 0;
        while k < found.len()
            invariant
                k <= found.len(),
                self.index@.len() == self.all_chunks.len(),
                forall|j: int|
                    0 <= j < found.len() ==> (#[trigger] found[j]).position < self.index@.len() && 0
                        < found[j].score <= SCORE_ONE,
                hits.len() == k,
                forall|j: int|
                    0 <= j < k ==> (#[trigger] hits[j])@ == (HitView {
                        score: found[j].score,
                        matched_by: MatchType::Keyword,
                        ..self.all_chunks[found[j].position as int]@
                    }),
            decreases found.len() - k,
        {
            let mut hit = self.all_chunks[found[k].position].clone();
            hit.score = found[k].score;
            hit.matched_by = MatchType::Keyword;
            hits.push(hit);
            k = k + 1;
        }
        assert(hit_views(hits@) =~= keyword_hits(self.chunks(), strs(terms@), limit as nat));
        hits
    }

    /// The keyword hits for `query`: the best `limit` chunks by BM25 score
    /// against the terms of the query, best first. Scores are relative to
    /// the best hit, whose score is `SCORE_ONE`.
    pub fn keyword_search(&self, query: &str, limit: usize) -> (hits: Vec<SearchHit>)
        ensures
            hit_views(hits@) == keyword_hits(
                self.chunks(),
                tokens_of(lowercased(query@)),
                limit as nat,
            ),
            hits.len() <= limit,
            hits.len() <= self.chunks().len(),
            forall|k: int| 0 <= k < hits.len() ==> 0 < (#[trigger] hits[k]).score <= SCORE_ONE,
            hits.len() > 0 ==> hits[0].score == SCORE_ONE,
            forall|k: int| 0 <= k < hits.len() ==> (#[trigger] hits[k]).matched_by == MatchType::Keyword,
    {
        let terms = Searcher::tokenize(query);
        self.keyword_search_terms(&terms, limit)
    }

    /// The answer made of the retrieved `hits`.
    fn finish(&self, options: &SearchOptions, query: String, hits: Vec<SearchHit>) -> (results:
        SearchResults)
        ensures
            results@ == finished(options@, query@, hit_views(hits@)),
            results.results.len() <= options.limit,
            results.count == results.results.len(),
    {
        let rest = filter_type(&hits, &options.doc_type);
        let results = match options.aggregate_by {
            AggregateBy::Content => first_hits(&rest, options.limit),
            AggregateBy::Doc => self.aggregate_by_doc(rest, options.limit),
            AggregateBy::Folder => self.aggregate_by_folder(rest, options.limit),
        };
        let mode = match options.mode {
            SearchMode::Vector => "vector".to_owned(),
            SearchMode::Keyword => "keyword".to_owned(),
            SearchMode::Hybrid => "hybrid".to_owned(),
        };
        let by = match options.aggregate_by {
            AggregateBy::Content => "content".to_owned(),
            AggregateBy::Doc => "doc".to_owned(),
            AggregateBy::Folder => "folder".to_owned(),
        };
        SearchResults {
            query,
            count: results.len(),
            results,
            mode: Some(mode),
            aggregate_by: Some(by),
            index_missing: None,
            error: None,
        }
    }

    /// The next step of a search for `options`, given what has happened
    /// since the last one. A search begins with `SearchEvent::Start` and is
    /// over when the step is `SearchStep::Done`.
    pub fn search(&self, options: &SearchOptions, event: SearchEvent) -> (step: SearchStep)
        ensures
            step@ == next_step(self.chunks(), options@, event),
            step matches SearchStep::Done(Ok(results)) ==> results.results.len() <= options.limit
                && results.count == results.results.len(),
    {
        let query = trim(options.query.as_str());
        if query.as_str().is_empty() {
            return SearchStep::Done(Ok(SearchResults::empty(query)));
        }
        let pool = candidates(options);
        match event {
            SearchEvent::Start => SearchStep::ProbeIndex,
            SearchEvent::IndexProbed(exists) => {
                if !exists {
                    SearchStep::Done(Ok(SearchResults::index_not_built(query)))
                } else {
                    match options.mode {
                        SearchMode::Keyword => {
                            let hits = self.keyword_search(query.as_str(), pool);
                            SearchStep::Done(Ok(self.finish(options, query, hits)))
                        },
                        SearchMode::Vector => SearchStep::QueryVectors { query, limit: pool },
                        SearchMode::Hybrid => SearchStep::QueryVectors {
                            query,
                            limit: saturating(pool, 3),
                        },
                    }
                }
            },
            SearchEvent::VectorHits(found) => {
                let full = match options.mode {
                    SearchMode::Hybrid => found.len() > usize::MAX - self.all_chunks.len(),
                    _ => false,
                };
                if full {
                    return SearchStep::Done(
                        Err(SearchError::Search("too many candidates to fuse".to_owned())),
                    );
                }
                let hits = match options.mode {
                    SearchMode::Keyword => self.keyword_search(query.as_str(), pool),
                    SearchMode::Vector => tag_vector(&found),
                    SearchMode::Hybrid => {
                        let vector = tag_vector(&found);
                        let keyword = self.keyword_search(query.as_str(), saturating(pool, 3));
                        self.rrf_fusion(vector, keyword, pool)
                    },
                };
                SearchStep::Done(Ok(self.finish(options, query, hits)))
            },
            SearchEvent::Failed(error) => {
                match error {
                    SearchError::IndexNotBuilt => SearchStep::Done(
                        Ok(SearchResults::index_not_built(query)),
                    ),
                    other => SearchStep::Done(Err(other)),
                }
            },
        }
    }
}

} // verus!
