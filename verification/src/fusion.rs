//! Reciprocal rank fusion of a vector ranking and a keyword ranking.
//!
//! A hit at 0-based rank `i` of a list adds `weight / (RRF_K + i + 1)` to the
//! score of its chunk, with weight 0.7 for the vector list and 0.3 for the
//! keyword list. Two hits are the same chunk when they agree in path and
//! starting line.

use vstd::prelude::*;
use crate::groups::{
    assign_groups, firsts, key_views, lemma_firsts, lemma_tally_grows, tally, total, ItemKey,
};
use crate::hit::{hit_views, HitView, MatchType, SearchHit, SCORE_ONE};
use crate::ranking::{lemma_ranking, ranked, ranking, ranks_before, take_ranked, weights_of};
use crate::searcher::Searcher;

verus! {

/// The constant added to every rank.
pub const RRF_K: u64 = 60;

/// Weight of the vector list, in tenths.
pub const VECTOR_WEIGHT: u64 = 7;

/// Weight of the keyword list, in tenths.
pub const KEYWORD_WEIGHT: u64 = 3;

/// What a hit at 0-based `rank` of a list with `weight` tenths adds to the
/// score of its chunk, rounded down.
pub open spec fn rrf_share(weight: nat, rank: nat) -> nat {
    ((weight * SCORE_ONE) / (10 * (RRF_K + rank + 1))) as nat
}

/// The shares of the first `n` ranks.
pub open spec fn shares(weight: nat, n: nat) -> Seq<int> {
    Seq::new(n, |i: int| rrf_share(weight, i as nat) as int)
}

/// Path and starting line of a hit; a hit without a line counts as line 0.
pub open spec fn fusion_key(hit: HitView) -> (Seq<char>, usize) {
    (
        hit.file_path,
        match hit.line_start {
            Some(line) => line,
            None => 0,
        },
    )
}

pub open spec fn fusion_keys(hits: Seq<HitView>) -> Seq<(Seq<char>, usize)> {
    Seq::new(hits.len(), |i: int| fusion_key(hits[i]))
}

/// The fused score of the chunk `key`: its shares from both lists.
pub open spec fn fused_score(
    vector: Seq<HitView>,
    keyword: Seq<HitView>,
    key: (Seq<char>, usize),
) -> int {
    total(fusion_keys(vector), shares(VECTOR_WEIGHT as nat, vector.len()), key, vector.len())
        + total(
        fusion_keys(keyword),
        shares(KEYWORD_WEIGHT as nat, keyword.len()),
        key,
        keyword.len(),
    )
}

/// Where the chunk `key` was found: in both lists, or in the one that has it.
pub open spec fn fused_match(
    vector: Seq<HitView>,
    keyword: Seq<HitView>,
    key: (Seq<char>, usize),
) -> MatchType {
    if tally(fusion_keys(vector), key, vector.len()) > 0 {
        if tally(fusion_keys(keyword), key, keyword.len()) > 0 {
            MatchType::Hybrid
        } else {
            MatchType::Vector
        }
    } else {
        MatchType::Keyword
    }
}

/// The fused hit of the chunk that `first` is the first hit of.
pub open spec fn fused_hit(vector: Seq<HitView>, keyword: Seq<HitView>, first: HitView) -> HitView {
    HitView {
        score: fused_score(vector, keyword, fusion_key(first)) as i64,
        matched_by: fused_match(vector, keyword, fusion_key(first)),
        ..first
    }
}

/// One fused hit per chunk of the two lists, in the order in which the
/// chunks first appear in `vector` followed by `keyword`.
pub open spec fn fused(vector: Seq<HitView>, keyword: Seq<HitView>) -> Seq<HitView> {
    let all = vector + keyword;
    let heads = firsts(fusion_keys(all), all.len());
    Seq::new(heads.len(), |g: int| fused_hit(vector, keyword, all[heads[g] as int]))
}

/// No share exceeds that of rank 0, and from rank 700 million on the shares
/// are zero.
pub proof fn lemma_share_bounds(weight: nat, rank: nat)
    requires
        weight <= 7,
    ensures
        rrf_share(weight, rank) <= 11_475_409,
        rank >= 700_000_000 ==> rrf_share(weight, rank) == 0,
{
    let num = (weight * SCORE_ONE) as int;
    let den = (10 * (RRF_K + rank + 1)) as int;
    let q = num / den;
    assert(num <= 7_000_000_000) by (nonlinear_arith)
        requires
            num == weight * 1_000_000_000,
            weight <= 7,
    ;
    assert(0 <= q && q * den <= num) by (nonlinear_arith)
        requires
            q == num / den,
            den >= 610,
            num >= 0,
    ;
    assert(q * 610 <= q * den) by (nonlinear_arith)
        requires
            q >= 0,
            den >= 610,
    ;
    if rank >= 700_000_000 {
        assert(q == 0) by (nonlinear_arith)
            requires
                q >= 0,
                q * den <= num,
                num <= 7_000_000_000,
                den > 7_000_000_000,
        ;
    }
}

proof fn lemma_total_bound(
    keys: Seq<(Seq<char>, usize)>,
    weight: nat,
    n: nat,
    key: (Seq<char>, usize),
    i: nat,
)
    requires
        weight <= 7,
        i <= n,
    ensures
        0 <= total(keys, shares(weight, n), key, i) <= 11_475_409 * 700_000_000,
        i <= 700_000_000 ==> total(keys, shares(weight, n), key, i) <= 11_475_409 * i,
    decreases i,
{
    if i > 0 {
        lemma_total_bound(keys, weight, n, key, (i - 1) as nat);
        lemma_share_bounds(weight, (i - 1) as nat);
    }
}

/// With `key` at the head of a list and nowhere else, the list adds exactly
/// the share of rank 0.
proof fn lemma_total_head(
    keys: Seq<(Seq<char>, usize)>,
    values: Seq<int>,
    key: (Seq<char>, usize),
    n: nat,
)
    requires
        n >= 1,
        keys[0] == key,
        tally(keys, key, n) == 1,
    ensures
        total(keys, values, key, n) == values[0],
    decreases n,
{
    if n > 1 {
        lemma_tally_grows(keys, key, 1, (n - 1) as nat);
        assert(tally(keys, key, 1) == 1) by {
            assert(tally(keys, key, 0) == 0);
        }
        lemma_total_head(keys, values, key, (n - 1) as nat);
    } else {
        assert(total(keys, values, key, 0) == 0);
    }
}

/// Weight respect: a chunk that heads both lists, and occurs nowhere else in
/// them, has the two shares of rank 0 as its fused score, which is
/// `(0.7 + 0.3) / 61` up to the rounding of each share.
pub proof fn lemma_fused_top(vector: Seq<HitView>, keyword: Seq<HitView>, key: (Seq<char>, usize))
    requires
        vector.len() >= 1,
        keyword.len() >= 1,
        fusion_key(vector[0]) == key,
        fusion_key(keyword[0]) == key,
        tally(fusion_keys(vector), key, vector.len()) == 1,
        tally(fusion_keys(keyword), key, keyword.len()) == 1,
    ensures
        fused_score(vector, keyword, key) == rrf_share(VECTOR_WEIGHT as nat, 0) + rrf_share(
            KEYWORD_WEIGHT as nat,
            0,
        ),
        fused_score(vector, keyword, key) == 11_475_409 + 4_918_032,
        SCORE_ONE / 61 - 1 <= fused_score(vector, keyword, key) <= SCORE_ONE / 61,
{
    lemma_total_head(
        fusion_keys(vector),
        shares(VECTOR_WEIGHT as nat, vector.len()),
        key,
        vector.len(),
    );
    lemma_total_head(
        fusion_keys(keyword),
        shares(KEYWORD_WEIGHT as nat, keyword.len()),
        key,
        keyword.len(),
    );
    assert(7 * 1_000_000_000int == 7_000_000_000 && 3 * 1_000_000_000int == 3_000_000_000);
    assert(10 * (60 + 0 + 1) == 610int);
    assert(7_000_000_000int / 610 == 11_475_409);
    assert(3_000_000_000int / 610 == 4_918_032);
    assert(1_000_000_000int / 61 == 16_393_442);
    assert(rrf_share(VECTOR_WEIGHT as nat, 0) == 11_475_409);
    assert(rrf_share(KEYWORD_WEIGHT as nat, 0) == 4_918_032);
}

/// The number of chunks in the two lists.
pub open spec fn chunk_count(vector: Seq<HitView>, keyword: Seq<HitView>) -> nat {
    firsts(fusion_keys(vector + keyword), (vector + keyword).len()).len()
}

/// A fused ranking holds each chunk of the two lists at most once, and as
/// many chunks as there are, up to the limit.
pub proof fn lemma_fused_chunks(vector: Seq<HitView>, keyword: Seq<HitView>, limit: nat)
    requires
        vector.len() + keyword.len() <= usize::MAX,
    ensures
        ranked(fused(vector, keyword), limit).len() == if limit < chunk_count(vector, keyword) {
            limit
        } else {
            chunk_count(vector, keyword)
        },
        forall|a: int, b: int|
            0 <= a < b < ranked(fused(vector, keyword), limit).len() ==> fusion_key(
                #[trigger] ranked(fused(vector, keyword), limit)[a],
            ) != fusion_key(#[trigger] ranked(fused(vector, keyword), limit)[b]),
{
    let all = vector + keyword;
    let keys = fusion_keys(all);
    let heads = firsts(keys, all.len());
    let merged = fused(vector, keyword);
    let top = ranked(merged, limit);
    let weights = weights_of(merged);
    let order = ranking(weights);
    lemma_firsts(keys, all.len());
    lemma_ranking(weights);
    assert forall|a: int, b: int| 0 <= a < b < top.len() implies fusion_key(#[trigger] top[a])
        != fusion_key(#[trigger] top[b]) by {
        let g = order[a] as int;
        let h = order[b] as int;
        assert(ranks_before(weights, g, h));
        assert(g != h);
        assert(fusion_key(merged[g]) == keys[heads[g] as int]);
        assert(fusion_key(merged[h]) == keys[heads[h] as int]);
        if g < h {
            assert(keys[heads[g] as int] != keys[heads[h] as int]);
        } else {
            assert(keys[heads[h] as int] != keys[heads[g] as int]);
        }
    }
}

fn share(weight: u64, rank: usize) -> (part: i64)
    requires
        weight <= 7,
    ensures
        part == rrf_share(weight as nat, rank as nat),
        0 <= part <= 11_475_409,
{
    proof {
        lemma_share_bounds(weight as nat, rank as nat);
    }
    let num: u128 = weight as u128 * 1_000_000_000;
    let den: u128 = 10 * (61 + rank as u128);
    (num / den) as i64
}

fn key_of(hit: &SearchHit) -> (key: ItemKey)
    ensures
        key@ == fusion_key(hit@),
{
    ItemKey {
        text: hit.file_path.clone(),
        number: match hit.line_start {
            Some(line) => line,
            None => 0,
        },
    }
}

impl Searcher {
    /// Fuses a vector ranking and a keyword ranking into the best `limit`
    /// chunks by summed shares. Each chunk keeps the hit under which it
    /// first appears, vector list first.
    pub fn rrf_fusion(
        &self,
        vector_results: Vec<SearchHit>,
        keyword_results: Vec<SearchHit>,
        limit: usize,
    ) -> (results: Vec<SearchHit>)
        requires
            vector_results.len() + keyword_results.len() <= usize::MAX,
        ensures
            hit_views(results@) == ranked(
                fused(hit_views(vector_results@), hit_views(keyword_results@)),
                limit as nat,
            ),
            results.len() <= limit,
            results.len() == if limit < chunk_count(
                hit_views(vector_results@),
                hit_views(keyword_results@),
            ) {
                limit as nat
            } else {
                chunk_count(hit_views(vector_results@), hit_views(keyword_results@))
            },
            forall|a: int, b: int|
                0 <= a < b < results.len() ==> fusion_key((#[trigger] results[a])@) != fusion_key(
                    (#[trigger] results[b])@,
                ),
    {
        let ghost v = hit_views(vector_results@);
        let ghost k = hit_views(keyword_results@);
        let ghost all = v + k;
        let ghost kv = fusion_keys(all);
        let nv = vector_results.len();
        let nk = keyword_results.len();
        let mut keys: Vec<ItemKey> = Vec::new();
        let mut i: usize = 0;
        while i < nv
            invariant
                i <= nv,
                nv == vector_results.len(),
                v == hit_views(vector_results@),
                keys.len() == i,
                forall|j: int| 0 <= j < i ==> (#[trigger] keys[j])@ == fusion_key(v[j]),
            decreases nv - i,
        {
            keys.push(key_of(&vector_results[i]));
            i = i + 1;
        }
        let mut i: usize = 0;
        while i < nk
            invariant
                i <= nk,
                nk == keyword_results.len(),
                nv + nk <= usize::MAX,
                k == hit_views(keyword_results@),
                keys.len() == nv + i,
                forall|j: int| 0 <= j < nv ==> (#[trigger] keys[j])@ == fusion_key(v[j]),
                forall|j: int| 0 <= j < i ==> (#[trigger] keys[nv + j])@ == fusion_key(k[j]),
            decreases nk - i,
        {
            keys.push(key_of(&keyword_results[i]));
            i = i + 1;
        }
        assert(key_views(keys@) =~= kv) by {
            assert forall|j: int| 0 <= j < keys.len() implies key_views(keys@)[j] == kv[j] by {
                if j >= nv {
                    assert(keys[nv + (j - nv)]@ == fusion_key(k[j - nv]));
                }
            }
        }
        let (heads, group_of) = assign_groups(&keys);
        proof {
            lemma_firsts(kv, all.len());
        }
        let groups = heads.len();
        let ghost vk = fusion_keys(v);
        let ghost kk = fusion_keys(k);
        let ghost vs = shares(VECTOR_WEIGHT as nat, v.len());
        let ghost ks = shares(KEYWORD_WEIGHT as nat, k.len());
        let mut scores: Vec<i64> = Vec::new();
        let mut in_vector: Vec<bool> = Vec::new();
        let mut in_keyword: Vec<bool> = Vec::new();
        let mut g: usize = 0;
        while g < groups
            invariant
                g <= groups,
                scores.len() == g,
                in_vector.len() == g,
                in_keyword.len() == g,
                forall|h: int| 0 <= h < g ==> #[trigger] scores[h] == 0,
                forall|h: int| 0 <= h < g ==> !#[trigger] in_vector[h],
                forall|h: int| 0 <= h < g ==> !#[trigger] in_keyword[h],
            decreases groups - g,
        {
            scores.push(0);
            in_vector.push(false);
            in_keyword.push(false);
            g = g + 1;
        }
        let mut i: usize = 0;
        while i < nv
            invariant
                i <= nv,
                nv == v.len(),
                nv + nk == all.len(),
                all.len() <= usize::MAX,
                kv == fusion_keys(all),
                vk == fusion_keys(v),
                vs == shares(VECTOR_WEIGHT as nat, v.len()),
                all == v + k,
                heads@ == firsts(kv, all.len()),
                groups == heads.len(),
                group_of.len() == all.len(),
                forall|j: int|
                    0 <= j < all.len() ==> (#[trigger] group_of[j]) < groups && kv[heads[group_of[j] as int] as int]
                        == kv[j],
                scores.len() == groups,
                in_vector.len() == groups,
                in_keyword.len() == groups,
                forall|h: int| 0 <= h < groups ==> !#[trigger] in_keyword[h],
                forall|h: int|
                    0 <= h < groups ==> #[trigger] scores[h] == total(
                        vk,
                        vs,
                        kv[heads[h] as int],
                        i as nat,
                    ),
                forall|h: int|
                    0 <= h < groups ==> (#[trigger] in_vector[h] <==> tally(
                        vk,
                        kv[heads[h] as int],
                        i as nat,
                    ) > 0),
            decreases nv - i,
        {
            let g = group_of[i];
            let part = share(VECTOR_WEIGHT, i);
            proof {
                lemma_firsts(kv, all.len());
                lemma_total_bound(vk, VECTOR_WEIGHT as nat, v.len(), kv[heads[g as int] as int], i as nat);
                assert(kv[i as int] == vk[i as int]);
                assert forall|h: int| 0 <= h < groups && h != g implies kv[heads[h] as int]
                    != vk[i as int] by {
                    if h < g {
                        assert(kv[heads[h] as int] != kv[heads[g as int] as int]);
                    } else {
                        assert(kv[heads[g as int] as int] != kv[heads[h] as int]);
                    }
                }
            }
            let sum = scores[g] + part;
            scores.set(g, sum);
            in_vector.set(g, true);
            i = i + 1;
        }
        let mut i: usize = 0;
        while i < nk
            invariant
                i <= nk,
                nv == v.len(),
                nk == k.len(),
                nv + nk == all.len(),
                all.len() <= usize::MAX,
                kv == fusion_keys(all),
                vk == fusion_keys(v),
                kk == fusion_keys(k),
                vs == shares(VECTOR_WEIGHT as nat, v.len()),
                ks == shares(KEYWORD_WEIGHT as nat, k.len()),
                all == v + k,
                heads@ == firsts(kv, all.len()),
                groups == heads.len(),
                group_of.len() == all.len(),
                forall|j: int|
                    0 <= j < all.len() ==> (#[trigger] group_of[j]) < groups && kv[heads[group_of[j] as int] as int]
                        == kv[j],
                scores.len() == groups,
                in_vector.len() == groups,
                in_keyword.len() == groups,
                forall|h: int|
                    0 <= h < groups ==> #[trigger] scores[h] == total(
                        vk,
                        vs,
                        kv[heads[h] as int],
                        nv as nat,
                    ) + total(kk, ks, kv[heads[h] as int], i as nat),
                forall|h: int|
                    0 <= h < groups ==> (#[trigger] in_vector[h] <==> tally(
                        vk,
                        kv[heads[h] as int],
                        nv as nat,
                    ) > 0),
                forall|h: int|
                    0 <= h < groups ==> (#[trigger] in_keyword[h] <==> tally(
                        kk,
                        kv[heads[h] as int],
                        i as nat,
                    ) > 0),
            decreases nk - i,
        {
            let g = group_of[nv + i];
            let part = share(KEYWORD_WEIGHT, i);
            proof {
                lemma_firsts(kv, all.len());
                lemma_total_bound(vk, VECTOR_WEIGHT as nat, v.len(), kv[heads[g as int] as int], nv as nat);
                lemma_total_bound(kk, KEYWORD_WEIGHT as nat, k.len(), kv[heads[g as int] as int], i as nat);
                assert(kv[nv + i] == kk[i as int]);
                assert forall|h: int| 0 <= h < groups && h != g implies kv[heads[h] as int]
                    != kk[i as int] by {
                    if h < g {
                        assert(kv[heads[h] as int] != kv[heads[g as int] as int]);
                    } else {
                        assert(kv[heads[g as int] as int] != kv[heads[h] as int]);
                    }
                }
            }
            let sum = scores[g] + part;
            scores.set(g, sum);
            in_keyword.set(g, true);
            i = i + 1;
        }
        let mut merged: Vec<SearchHit> = Vec::new();
        let mut g: usize = 0;
        while g < groups
            invariant
                g <= groups,
                nv == vector_results.len(),
                nk == keyword_results.len(),
                v == hit_views(vector_results@),
                k == hit_views(keyword_results@),
                nv + nk == all.len(),
                all.len() <= usize::MAX,
                kv == fusion_keys(all),
                vk == fusion_keys(v),
                kk == fusion_keys(k),
                vs == shares(VECTOR_WEIGHT as nat, v.len()),
                ks == shares(KEYWORD_WEIGHT as nat, k.len()),
                all == v + k,
                heads@ == firsts(kv, all.len()),
                groups == heads.len(),
                forall|h: int| 0 <= h < groups ==> (#[trigger] heads[h]) < all.len(),
                scores.len() == groups,
                in_vector.len() == groups,
                in_keyword.len() == groups,
                forall|h: int|
                    0 <= h < groups ==> #[trigger] scores[h] == total(
                        vk,
                        vs,
                        kv[heads[h] as int],
                        nv as nat,
                    ) + total(kk, ks, kv[heads[h] as int], nk as nat),
                forall|h: int|
                    0 <= h < groups ==> (#[trigger] in_vector[h] <==> tally(
                        vk,
                        kv[heads[h] as int],
                        nv as nat,
                    ) > 0),
                forall|h: int|
                    0 <= h < groups ==> (#[trigger] in_keyword[h] <==> tally(
                        kk,
                        kv[heads[h] as int],
                        nk as nat,
                    ) > 0),
                merged.len() == g,
                forall|h: int|
                    0 <= h < g ==> (#[trigger] merged[h])@ == fused_hit(v, k, all[heads[h] as int]),
            decreases groups - g,
        {
            let at = heads[g];
            let mut hit = if at < nv {
                vector_results[at].clone()
            } else {
                keyword_results[at - nv].clone()
            };
            assert(hit@ == all[at as int]);
            hit.score = scores[g];
            hit.matched_by = if in_vector[g] {
                if in_keyword[g] {
                    MatchType::Hybrid
                } else {
                    MatchType::Vector
                }
            } else {
                MatchType::Keyword
            };
            merged.push(hit);
            g = g + 1;
        }
        assert(hit_views(merged@) =~= fused(v, k));
        let results = take_ranked(&merged, limit);
        proof {
            lemma_fused_chunks(v, k, limit as nat);
            let top = ranked(fused(v, k), limit as nat);
            assert forall|a: int, b: int| 0 <= a < b < results.len() implies fusion_key(
                (#[trigger] results[a])@,
            ) != fusion_key((#[trigger] results[b])@) by {
                assert(results[a]@ == top[a]);
                assert(results[b]@ == top[b]);
            }
        }
        results
    }
}

} // verus!
