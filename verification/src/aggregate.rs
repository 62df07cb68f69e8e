//! Rolling chunk hits up to documents and folders.
//!
//! A group is scored from its best chunk: a document by
//! `top * 0.6 + min(hits / 5, 1) * top * 0.4`, a folder by
//! `top * 0.5 + min(hits / 10, 1) * top * 0.3 + min(docs / 3, 1) * top * 0.2`,
//! each rounded towards zero.

use vstd::prelude::*;
use crate::groups::{
    assign_groups, best_index, best_score, firsts, is_first, key_views, lemma_best, lemma_firsts,
    lemma_tally_grows, lemma_tally_member, tally, ItemKey,
};
use crate::hit::{clone_text, hit_views, HitView, SearchHit};
use crate::ranking::{ranked, take_ranked};
use crate::searcher::Searcher;
use crate::text::{chars_of, leaf, leaf_name, leaf_of, parent, parent_of, strip_md};

verus! {

/// The smaller of two numbers.
pub open spec fn least(a: int, b: int) -> int {
    if a < b {
        a
    } else {
        b
    }
}

/// `top * factor / whole`, rounded towards zero.
pub open spec fn share_of(top: int, factor: int, whole: int) -> int {
    if top >= 0 {
        top * factor / whole
    } else {
        -((-top) * factor / whole)
    }
}

/// The score of a document with best chunk score `top` and `hits` chunks.
pub open spec fn doc_score(top: int, hits: int) -> int {
    share_of(top, 15 + 2 * least(hits, 5), 25)
}

/// The score of a folder with best chunk score `top`, `hits` chunks and
/// `docs` documents.
pub open spec fn folder_score(top: int, hits: int, docs: int) -> int {
    share_of(top, 150 + 9 * least(hits, 10) + 20 * least(docs, 3), 300)
}

/// Ceiling: a group whose best chunk scores zero or more scores no higher
/// than that chunk and no lower than zero. A group whose best chunk scores
/// below zero scores between that chunk and zero.
pub proof fn lemma_score_ceiling(top: int, hits: int, docs: int)
    requires
        hits >= 0,
        docs >= 0,
    ensures
        top >= 0 ==> 0 <= doc_score(top, hits) <= top,
        top >= 0 ==> 0 <= folder_score(top, hits, docs) <= top,
        top < 0 ==> top <= doc_score(top, hits) <= 0,
        top < 0 ==> top <= folder_score(top, hits, docs) <= 0,
        hits >= 5 ==> doc_score(top, hits) == top,
        hits >= 10 && docs >= 3 ==> folder_score(top, hits, docs) == top,
{
    let a = 15 + 2 * least(hits, 5);
    let b = 150 + 9 * least(hits, 10) + 20 * least(docs, 3);
    let size = if top >= 0 {
        top
    } else {
        -top
    };
    assert(0 <= size * a / 25 <= size && (a == 25 ==> size * a / 25 == size)) by (nonlinear_arith)
        requires
            size >= 0,
            15 <= a <= 25,
    ;
    assert(0 <= size * b / 300 <= size && (b == 300 ==> size * b / 300 == size))
        by (nonlinear_arith)
        requires
            size >= 0,
            150 <= b <= 300,
    ;
}

/// The scores of a list of hits, hit by hit.
pub open spec fn scores_of(hits: Seq<HitView>) -> Seq<i64> {
    Seq::new(hits.len(), |i: int| hits[i].score)
}

/// For each hit the key of its document: its path.
pub open spec fn doc_keys(hits: Seq<HitView>) -> Seq<(Seq<char>, usize)> {
    Seq::new(hits.len(), |i: int| (hits[i].file_path, 0usize))
}

/// For each hit the key of its folder: the folder of its path.
pub open spec fn folder_keys(hits: Seq<HitView>) -> Seq<(Seq<char>, usize)> {
    Seq::new(hits.len(), |i: int| (parent(hits[i].file_path), 0usize))
}

/// The number of documents among the first `n` hits that lie in the folder
/// `key`: the hits of that folder whose path appears for the first time.
pub open spec fn docs_in(hits: Seq<HitView>, key: (Seq<char>, usize), n: nat) -> nat
    decreases n,
{
    if n == 0 {
        0
    } else {
        docs_in(hits, key, (n - 1) as nat) + if folder_keys(hits)[n - 1] == key && is_first(
            doc_keys(hits),
            n - 1,
        ) {
            1nat
        } else {
            0nat
        }
    }
}

/// The hit that stands for the document of the hit at `first`.
pub open spec fn doc_entry(hits: Seq<HitView>, first: int) -> HitView {
    let keys = doc_keys(hits);
    let count = tally(keys, keys[first], hits.len());
    let top = best_score(keys, scores_of(hits), keys[first], hits.len());
    let chunk = hits[best_index(keys, scores_of(hits), keys[first], hits.len())];
    HitView {
        file_path: hits[first].file_path,
        display_name: strip_md(leaf(hits[first].file_path)),
        content: chunk.content,
        heading_path: chunk.heading_path,
        section_title: chunk.section_title,
        line_start: chunk.line_start,
        line_end: chunk.line_end,
        score: doc_score(top, count as int) as i64,
        matched_by: chunk.matched_by,
        hit_count: Some(count as usize),
        doc_count: None,
        folder_path: None,
        aggregate_type: Some("doc"@),
        doc_type: chunk.doc_type,
    }
}

/// One hit per document of `hits`, in order of first appearance.
pub open spec fn doc_rollup(hits: Seq<HitView>) -> Seq<HitView> {
    let heads = firsts(doc_keys(hits), hits.len());
    Seq::new(heads.len(), |g: int| doc_entry(hits, heads[g] as int))
}

/// The name shown for a folder: `(root)` for `.`, else its last segment.
pub open spec fn folder_display(folder: Seq<char>) -> Seq<char> {
    if folder == seq!['.'] {
        "(root)"@
    } else {
        leaf(folder)
    }
}

/// The hit that stands for the folder of the hit at `first`.
pub open spec fn folder_entry(hits: Seq<HitView>, first: int) -> HitView {
    let keys = folder_keys(hits);
    let count = tally(keys, keys[first], hits.len());
    let docs = docs_in(hits, keys[first], hits.len());
    let top = best_score(keys, scores_of(hits), keys[first], hits.len());
    let chunk = hits[best_index(keys, scores_of(hits), keys[first], hits.len())];
    HitView {
        file_path: chunk.file_path,
        display_name: folder_display(keys[first].0),
        content: chunk.content,
        heading_path: chunk.heading_path,
        section_title: chunk.section_title,
        line_start: chunk.line_start,
        line_end: chunk.line_end,
        score: folder_score(top, count as int, docs as int) as i64,
        matched_by: chunk.matched_by,
        hit_count: Some(count as usize),
        doc_count: Some(docs as usize),
        folder_path: Some(keys[first].0),
        aggregate_type: Some("folder"@),
        doc_type: chunk.doc_type,
    }
}

/// One hit per folder of `hits`, in order of first appearance.
pub open spec fn folder_rollup(hits: Seq<HitView>) -> Seq<HitView> {
    let heads = firsts(folder_keys(hits), hits.len());
    Seq::new(heads.len(), |g: int| folder_entry(hits, heads[g] as int))
}

/// Whether `entry` has the document type of one of `hits`.
pub open spec fn typed_like(hits: Seq<HitView>, entry: HitView) -> bool {
    exists|b: int| 0 <= b < hits.len() && (#[trigger] hits[b]).doc_type == entry.doc_type
}

/// A rolled-up hit has the document type of the chunk it shows, which is
/// one of the hits that were rolled up.
pub proof fn lemma_rollup_types(hits: Seq<HitView>)
    requires
        hits.len() <= usize::MAX,
    ensures
        forall|g: int|
            0 <= g < doc_rollup(hits).len() ==> typed_like(hits, #[trigger] doc_rollup(hits)[g]),
        forall|g: int|
            0 <= g < folder_rollup(hits).len() ==> typed_like(
                hits,
                #[trigger] folder_rollup(hits)[g],
            ),
{
    let n = hits.len();
    let scores = scores_of(hits);
    let dk = doc_keys(hits);
    let fk = folder_keys(hits);
    lemma_firsts(dk, n);
    lemma_firsts(fk, n);
    assert forall|g: int| 0 <= g < doc_rollup(hits).len() implies typed_like(
        hits,
        #[trigger] doc_rollup(hits)[g],
    ) by {
        let first = firsts(dk, n)[g] as int;
        lemma_tally_member(dk, first, n);
        lemma_best(dk, scores, dk[first], n);
        let best = best_index(dk, scores, dk[first], n);
        assert(hits[best].doc_type == doc_rollup(hits)[g].doc_type);
    }
    assert forall|g: int| 0 <= g < folder_rollup(hits).len() implies typed_like(
        hits,
        #[trigger] folder_rollup(hits)[g],
    ) by {
        let first = firsts(fk, n)[g] as int;
        lemma_tally_member(fk, first, n);
        lemma_best(fk, scores, fk[first], n);
        let best = best_index(fk, scores, fk[first], n);
        assert(hits[best].doc_type == folder_rollup(hits)[g].doc_type);
    }
}

proof fn lemma_docs_in_bound(hits: Seq<HitView>, key: (Seq<char>, usize), n: nat)
    ensures
        docs_in(hits, key, n) <= n,
    decreases n,
{
    if n > 0 {
        lemma_docs_in_bound(hits, key, (n - 1) as nat);
    }
}

/// What a pass over the hits knows of each group.
struct Rollup {
    heads: Vec<usize>,
    group_of: Vec<usize>,
    counts: Vec<usize>,
    tops: Vec<i64>,
    bests: Vec<usize>,
}

impl Rollup {
    spec fn wf(&self, keys: Seq<(Seq<char>, usize)>, scores: Seq<i64>) -> bool {
        &&& self.heads@ == firsts(keys, keys.len())
        &&& self.group_of.len() == keys.len()
        &&& self.counts.len() == self.heads.len()
        &&& self.tops.len() == self.heads.len()
        &&& self.bests.len() == self.heads.len()
        &&& forall|i: int|
            0 <= i < keys.len() ==> (#[trigger] self.group_of[i]) < self.heads.len()
                && keys[self.heads[self.group_of[i] as int] as int] == keys[i]
        &&& forall|g: int|
            0 <= g < self.heads.len() ==> {
                let key = keys[(#[trigger] self.heads[g]) as int];
                &&& self.heads[g] < keys.len()
                &&& 1 <= self.counts[g] == tally(keys, key, keys.len())
                &&& self.tops[g] == best_score(keys, scores, key, keys.len())
                &&& self.bests[g] == best_index(keys, scores, key, keys.len())
                &&& self.bests[g] < keys.len()
            }
    }
}

fn roll_up(keys: &Vec<ItemKey>, hits: &Vec<SearchHit>) -> (r: Rollup)
    requires
        keys.len() == hits.len(),
    ensures
        r.wf(key_views(keys@), scores_of(hit_views(hits@))),
{
    let ghost kv = key_views(keys@);
    let ghost sc = scores_of(hit_views(hits@));
    let n = hits.len();
    let (heads, group_of) = assign_groups(keys);
    proof {
        lemma_firsts(kv, n as nat);
    }
    let groups = heads.len();
    let mut counts: Vec<usize> = Vec::new();
    let mut tops: Vec<i64> = Vec::new();
    let mut bests: Vec<usize> = Vec::new();
    let mut g: usize = 0;
    while g < groups
        invariant
            g <= groups,
            counts.len() == g,
            tops.len() == g,
            bests.len() == g,
            forall|h: int| 0 <= h < g ==> #[trigger] counts[h] == 0,
            forall|h: int| 0 <= h < g ==> #[trigger] tops[h] == 0,
        decreases groups - g,
    {
        counts.push(0);
        tops.push(0);
        bests.push(0);
        g = g + 1;
    }
    let mut i: usize = 0;
    while i < n
        invariant
            i <= n,
            n == hits.len(),
            n == kv.len(),
            kv == key_views(keys@),
            sc == scores_of(hit_views(hits@)),
            heads@ == firsts(kv, n as nat),
            groups == heads.len(),
            group_of.len() == n,
            forall|j: int|
                0 <= j < n ==> (#[trigger] group_of[j]) < groups && kv[heads[group_of[j] as int] as int]
                    == kv[j],
            counts.len() == groups,
            tops.len() == groups,
            bests.len() == groups,
            forall|h: int|
                0 <= h < groups ==> {
                    let key = kv[(#[trigger] heads[h]) as int];
                    &&& counts[h] == tally(kv, key, i as nat)
                    &&& counts[h] <= i
                    &&& counts[h] == 0 ==> best_index(kv, sc, key, i as nat) == -1
                    &&& counts[h] > 0 ==> bests[h] == best_index(kv, sc, key, i as nat) && bests[h]
                        < i && tops[h] == sc[bests[h] as int]
                },
        decreases n - i,
    {
        let g = group_of[i];
        let score = hits[i].score;
        proof {
            lemma_firsts(kv, n as nat);
            assert(sc[i as int] == score);
            assert(kv[heads[g as int] as int] == kv[i as int]);
            assert forall|h: int| 0 <= h < groups && h != g implies kv[heads[h] as int] != kv[i as int] by {
                if h < g {
                    assert(kv[heads[h] as int] != kv[heads[g as int] as int]);
                } else {
                    assert(kv[heads[g as int] as int] != kv[heads[h] as int]);
                }
            }
            lemma_tally_grows(kv, kv[i as int], 0, i as nat);
        }
        if counts[g] == 0 || score > tops[g] {
            bests.set(g, i);
            tops.set(g, score);
        }
        let count = counts[g];
        counts.set(g, count + 1);
        i = i + 1;
    }
    proof {
        assert forall|g: int| 0 <= g < groups implies {
            let key = kv[(#[trigger] heads[g]) as int];
            &&& heads[g] < n
            &&& 1 <= counts[g] == tally(kv, key, n as nat)
            &&& tops[g] == best_score(kv, sc, key, n as nat)
            &&& bests[g] == best_index(kv, sc, key, n as nat)
            &&& bests[g] < n
        } by {
            lemma_tally_member(kv, heads[g] as int, n as nat);
            lemma_best(kv, sc, kv[heads[g] as int], n as nat);
        }
    }
    Rollup { heads, group_of, counts, tops, bests }
}

fn share(top: i64, factor: i128, whole: i128) -> (part: i64)
    requires
        0 <= factor <= whole,
        0 < whole <= 300,
    ensures
        part == share_of(top as int, factor as int, whole as int),
{
    let size: i128 = if top >= 0 {
        top as i128
    } else {
        -(top as i128)
    };
    assert(0 <= size * factor <= size * whole && (size * factor) / (whole as int) <= size)
        by (nonlinear_arith)
        requires
            size >= 0,
            0 <= factor <= whole,
            whole > 0,
    ;
    assert(size * whole <= 0x8000_0000_0000_0000 * 300) by (nonlinear_arith)
        requires
            0 <= size <= 0x8000_0000_0000_0000,
            0 < whole <= 300,
    ;
    let part: i128 = size * factor / whole;
    if top >= 0 {
        part as i64
    } else {
        (-part) as i64
    }
}

fn score_doc(top: i64, hits: usize) -> (score: i64)
    ensures
        score == doc_score(top as int, hits as int),
{
    let bonus: i128 = if hits < 5 {
        hits as i128
    } else {
        5
    };
    share(top, 15 + 2 * bonus, 25)
}

fn score_folder(top: i64, hits: usize, docs: usize) -> (score: i64)
    ensures
        score == folder_score(top as int, hits as int, docs as int),
{
    let hit_bonus: i128 = if hits < 10 {
        hits as i128
    } else {
        10
    };
    let doc_bonus: i128 = if docs < 3 {
        docs as i128
    } else {
        3
    };
    share(top, 150 + 9 * hit_bonus + 20 * doc_bonus, 300)
}

fn display_of(folder: &String) -> (name: String)
    ensures
        name@ == folder_display(folder@),
{
    let chars = chars_of(folder.as_str());
    if chars.len() == 1 && chars[0] == '.' {
        assert(folder@ =~= seq!['.']);
        "(root)".to_owned()
    } else {
        assert(folder@ != seq!['.']) by {
            if folder@ == seq!['.'] {
                assert(seq!['.'].len() == 1);
                assert(seq!['.'][0] == '.');
            }
        }
        leaf_of(folder.as_str())
    }
}

impl Searcher {
    /// Rolls `hits` up to one hit per document and returns the best `limit`
    /// documents. A document shows its best chunk: the first one with the
    /// highest score.
    pub fn aggregate_by_doc(&self, hits: Vec<SearchHit>, limit: usize) -> (results: Vec<SearchHit>)
        ensures
            hit_views(results@) == ranked(doc_rollup(hit_views(hits@)), limit as nat),
            results.len() <= limit,
    {
        let ghost views = hit_views(hits@);
        let ghost dk = doc_keys(views);
        let n = hits.len();
        let mut keys: Vec<ItemKey> = Vec::new();
        let mut i: usize = 0;
        while i < n
            invariant
                i <= n,
                n == hits.len(),
                views == hit_views(hits@),
                keys.len() == i,
                forall|j: int| 0 <= j < i ==> (#[trigger] keys[j])@ == (views[j].file_path, 0usize),
            decreases n - i,
        {
            keys.push(ItemKey { text: hits[i].file_path.clone(), number: 0 });
            i = i + 1;
        }
        assert(key_views(keys@) =~= dk);
        let r = roll_up(&keys, &hits);
        let groups = r.heads.len();
        let mut entries: Vec<SearchHit> = Vec::new();
        let mut g: usize = 0;
        while g < groups
            invariant
                g <= groups,
                groups == r.heads.len(),
                n == hits.len(),
                views == hit_views(hits@),
                dk == doc_keys(views),
                r.wf(dk, scores_of(views)),
                entries.len() == g,
                forall|h: int|
                    0 <= h < g ==> (#[trigger] entries[h])@ == doc_entry(views, r.heads[h] as int),
            decreases groups - g,
        {
            let head = r.heads[g];
            let chunk = &hits[r.bests[g]];
            let entry = SearchHit {
                file_path: hits[head].file_path.clone(),
                display_name: leaf_name(hits[head].file_path.as_str()),
                content: chunk.content.clone(),
                heading_path: clone_text(&chunk.heading_path),
                section_title: clone_text(&chunk.section_title),
                line_start: chunk.line_start,
                line_end: chunk.line_end,
                score: score_doc(r.tops[g], r.counts[g]),
                matched_by: chunk.matched_by,
                hit_count: Some(r.counts[g]),
                doc_count: None,
                folder_path: None,
                aggregate_type: Some("doc".to_owned()),
                doc_type: clone_text(&chunk.doc_type),
            };
            assert(entry@ == doc_entry(views, head as int));
            entries.push(entry);
            g = g + 1;
        }
        assert(hit_views(entries@) =~= doc_rollup(views));
        take_ranked(&entries, limit)
    }

    /// Rolls `hits` up to one hit per folder and returns the best `limit`
    /// folders. A folder shows its best chunk, as a document does.
    pub fn aggregate_by_folder(&self, hits: Vec<SearchHit>, limit: usize) -> (results: Vec<
        SearchHit,
    >)
        ensures
            hit_views(results@) == ranked(folder_rollup(hit_views(hits@)), limit as nat),
            results.len() <= limit,
    {
        let ghost views = hit_views(hits@);
        let ghost fk = folder_keys(views);
        let ghost dk = doc_keys(views);
        let n = hits.len();
        let mut keys: Vec<ItemKey> = Vec::new();
        let mut paths: Vec<ItemKey> = Vec::new();
        let mut i: usize = 0;
        while i < n
            invariant
                i <= n,
                n == hits.len(),
                views == hit_views(hits@),
                keys.len() == i,
                paths.len() == i,
                forall|j: int|
                    0 <= j < i ==> (#[trigger] keys[j])@ == (parent(views[j].file_path), 0usize),
                forall|j: int| 0 <= j < i ==> (#[trigger] paths[j])@ == (views[j].file_path, 0usize),
            decreases n - i,
        {
            keys.push(ItemKey { text: parent_of(hits[i].file_path.as_str()), number: 0 });
            paths.push(ItemKey { text: hits[i].file_path.clone(), number: 0 });
            i = i + 1;
        }
        assert(key_views(keys@) =~= fk);
        assert(key_views(paths@) =~= dk);
        let r = roll_up(&keys, &hits);
        let (doc_heads, doc_of) = assign_groups(&paths);
        proof {
            lemma_firsts(dk, n as nat);
            lemma_firsts(fk, n as nat);
        }
        let groups = r.heads.len();
        let mut docs: Vec<usize> = Vec::new();
        let mut g: usize = 0;
        while g < groups
            invariant
                g <= groups,
                docs.len() == g,
                forall|h: int| 0 <= h < g ==> #[trigger] docs[h] == 0,
            decreases groups - g,
        {
            docs.push(0);
            g = g + 1;
        }
        let mut i: usize = 0;
        while i < n
            invariant
                i <= n,
                n == hits.len(),
                n == views.len(),
                views == hit_views(hits@),
                fk == folder_keys(views),
                dk == doc_keys(views),
                r.wf(fk, scores_of(views)),
                groups == r.heads.len(),
                doc_heads@ == firsts(dk, n as nat),
                doc_of.len() == n,
                forall|j: int|
                    0 <= j < n ==> (#[trigger] doc_of[j]) < doc_heads.len() && dk[doc_heads[doc_of[j] as int] as int]
                        == dk[j],
                docs.len() == groups,
                forall|h: int|
                    0 <= h < groups ==> #[trigger] docs[h] == docs_in(
                        views,
                        fk[r.heads[h] as int],
                        i as nat,
                    ),
            decreases n - i,
        {
            let g = r.group_of[i];
            let first = doc_heads[doc_of[i]] == i;
            proof {
                lemma_firsts(dk, n as nat);
                lemma_firsts(fk, n as nat);
                let at = doc_heads[doc_of[i as int] as int] as int;
                assert(is_first(dk, at));
                assert(dk[at] == dk[i as int]);
                assert(first <==> is_first(dk, i as int));
                assert(fk[r.heads[g as int] as int] == fk[i as int]);
                assert forall|h: int| 0 <= h < groups && h != g implies fk[r.heads[h] as int]
                    != fk[i as int] by {
                    if h < g {
                        assert(fk[r.heads[h] as int] != fk[r.heads[g as int] as int]);
                    } else {
                        assert(fk[r.heads[g as int] as int] != fk[r.heads[h] as int]);
                    }
                }
                lemma_docs_in_bound(views, fk[i as int], i as nat);
            }
            if first {
                let count = docs[g];
                docs.set(g, count + 1);
            }
            i = i + 1;
        }
        let mut entries: Vec<SearchHit> = Vec::new();
        let mut g: usize = 0;
        while g < groups
            invariant
                g <= groups,
                groups == r.heads.len(),
                n == hits.len(),
                keys.len() == n,
                views == hit_views(hits@),
                fk == folder_keys(views),
                fk == key_views(keys@),
                r.wf(fk, scores_of(views)),
                docs.len() == groups,
                forall|h: int|
                    0 <= h < groups ==> #[trigger] docs[h] == docs_in(
                        views,
                        fk[r.heads[h] as int],
                        n as nat,
                    ),
                entries.len() == g,
                forall|h: int|
                    0 <= h < g ==> (#[trigger] entries[h])@ == folder_entry(views, r.heads[h] as int),
            decreases groups - g,
        {
            let head = r.heads[g];
            let chunk = &hits[r.bests[g]];
            let folder = &keys[head].text;
            assert(folder@ == fk[head as int].0);
            let entry = SearchHit {
                file_path: chunk.file_path.clone(),
                display_name: display_of(folder),
                content: chunk.content.clone(),
                heading_path: clone_text(&chunk.heading_path),
                section_title: clone_text(&chunk.section_title),
                line_start: chunk.line_start,
                line_end: chunk.line_end,
                score: score_folder(r.tops[g], r.counts[g], docs[g]),
                matched_by: chunk.matched_by,
                hit_count: Some(r.counts[g]),
                doc_count: Some(docs[g]),
                folder_path: Some(folder.clone()),
                aggregate_type: Some("folder".to_owned()),
                doc_type: clone_text(&chunk.doc_type),
            };
            assert(entry@ == folder_entry(views, head as int));
            entries.push(entry);
            g = g + 1;
        }
        assert(hit_views(entries@) =~= folder_rollup(views));
        take_ranked(&entries, limit)
    }
}

} // verus!
