//! Ordering items by weight: heaviest first, equal weights in input order.

use vstd::prelude::*;
use vstd::relations::{sorted_by, total_ordering};
use vstd::seq_lib::{group_to_multiset_ensures, lemma_sorted_unique};
use crate::hit::{hit_views, HitView, SearchHit};

verus! {

/// The dictionary order on pairs of numbers.
pub open spec fn pair_leq(a: (u128, usize), b: (u128, usize)) -> bool {
    a.0 < b.0 || (a.0 == b.0 && a.1 <= b.1)
}

/// [`pair_leq`] as a relation.
pub open spec fn pair_order() -> spec_fn((u128, usize), (u128, usize)) -> bool {
    |a: (u128, usize), b: (u128, usize)| pair_leq(a, b)
}

/// Sorts pairs of numbers in ascending order with the standard `sort` of
/// slices.
///
/// Trusted: afterwards the pairs stand in ascending dictionary order, and they
/// are the pairs from before, each as often as before.
#[verifier::external_body]
fn sort_pairs(pairs: &mut Vec<(u128, usize)>)
    ensures
        sorted_by(final(pairs)@, pair_order()),
        final(pairs)@.to_multiset() == old(pairs)@.to_multiset(),
{
    pairs.sort();
}

/// One sort key per item: ascending keys list heavier items first and equal
/// weights by position.
pub open spec fn sort_keys(weights: Seq<u128>) -> Seq<(u128, usize)> {
    Seq::new(weights.len(), |i: int| ((u128::MAX - weights[i]) as u128, i as usize))
}

/// The positions of `weights`, heaviest first and equal weights by position.
pub open spec fn ranking(weights: Seq<u128>) -> Seq<usize> {
    let sorted = sort_keys(weights).sort_by(pair_order());
    Seq::new(sorted.len(), |k: int| sorted[k].1)
}

/// Whether the item at `i` comes before the item at `j`.
pub open spec fn ranks_before(weights: Seq<u128>, i: int, j: int) -> bool {
    weights[i] > weights[j] || (weights[i] == weights[j] && i < j)
}

/// Whether `order` lists position `i`.
pub open spec fn lists(order: Seq<usize>, i: int) -> bool {
    exists|k: int| 0 <= k < order.len() && #[trigger] order[k] == i
}

/// Whether `order` lists every position of `weights` once, each before all
/// positions that it ranks before.
pub open spec fn is_ranking(order: Seq<usize>, weights: Seq<u128>) -> bool {
    &&& order.len() == weights.len()
    &&& forall|k: int| 0 <= k < order.len() ==> (#[trigger] order[k]) < weights.len()
    &&& forall|a: int, b: int|
        0 <= a < b < order.len() ==> ranks_before(
            weights,
            #[trigger] order[a] as int,
            #[trigger] order[b] as int,
        )
    &&& forall|i: int| 0 <= i < weights.len() ==> #[trigger] lists(order, i)
}

proof fn lemma_pair_order_total()
    ensures
        total_ordering(pair_order()),
{
    let r = pair_order();
    assert forall|x: (u128, usize), y: (u128, usize)| #[trigger] r(x, y) && #[trigger] r(y, x)
        implies x == y by {
        assert(x.0 == y.0 && x.1 == y.1);
    }
    assert forall|x: (u128, usize)| #[trigger] r(x, x) by {}
    assert forall|x: (u128, usize), y: (u128, usize), z: (u128, usize)| #[trigger]
        r(x, y) && #[trigger] r(y, z) implies r(x, z) by {}
    assert forall|x: (u128, usize), y: (u128, usize)| #[trigger] r(x, y) || #[trigger] r(y, x) by {}
}

/// [`ranking`] is the one order that [`is_ranking`] describes.
pub proof fn lemma_ranking(weights: Seq<u128>)
    requires
        weights.len() <= usize::MAX,
    ensures
        is_ranking(ranking(weights), weights),
{
    broadcast use group_to_multiset_ensures;

    let keys = sort_keys(weights);
    let sorted = keys.sort_by(pair_order());
    let order = ranking(weights);
    lemma_pair_order_total();
    keys.lemma_sort_by_ensures(pair_order());
    assert(sorted.len() == keys.len()) by {
        assert(sorted.to_multiset().len() == keys.to_multiset().len());
    }
    assert(keys.no_duplicates());
    keys.lemma_multiset_has_no_duplicates();
    sorted.lemma_multiset_has_no_duplicates_conv();
    assert forall|k: int| 0 <= k < sorted.len() implies sorted[k].1 < weights.len()
        && sorted[k].0 == u128::MAX - weights[sorted[k].1 as int] by {
        assert(sorted.contains(sorted[k]));
        assert(sorted.to_multiset().count(sorted[k]) > 0);
        assert(keys.contains(sorted[k]));
        let i = choose|i: int| 0 <= i < keys.len() && keys[i] == sorted[k];
        assert(keys[i].1 == i);
    }
    assert forall|a: int, b: int| 0 <= a < b < order.len() implies ranks_before(
        weights,
        #[trigger] order[a] as int,
        #[trigger] order[b] as int,
    ) by {
        assert(pair_order()(sorted[a], sorted[b]));
        assert(sorted[a] != sorted[b]);
    }
    assert forall|i: int| 0 <= i < weights.len() implies #[trigger] lists(order, i) by {
        assert(keys.contains(keys[i]));
        assert(keys.to_multiset().count(keys[i]) > 0);
        assert(sorted.contains(keys[i]));
        let k = choose|k: int| 0 <= k < sorted.len() && sorted[k] == keys[i];
        assert(order[k] == i);
    }
}

/// The positions of `weights`, heaviest first and equal weights by position.
pub fn rank(weights: &Vec<u128>) -> (order: Vec<usize>)
    ensures
        order@ == ranking(weights@),
        is_ranking(order@, weights@),
{
    let mut pairs: Vec<(u128, usize)> = Vec::new();
    let mut i: usize = 0;
    while i < weights.len()
        invariant
            i <= weights.len(),
            pairs@ == sort_keys(weights@).take(i as int),
        decreases weights.len() - i,
    {
        pairs.push((u128::MAX - weights[i], i));
        assert(pairs@ =~= sort_keys(weights@).take(i + 1));
        i = i + 1;
    }
    assert(pairs@ =~= sort_keys(weights@));
    sort_pairs(&mut pairs);
    proof {
        lemma_pair_order_total();
        sort_keys(weights@).lemma_sort_by_ensures(pair_order());
        lemma_sorted_unique(pairs@, sort_keys(weights@).sort_by(pair_order()), pair_order());
        lemma_ranking(weights@);
    }
    let mut order: Vec<usize> = Vec::new();
    let mut k: usize = 0;
    while k < pairs.len()
        invariant
            k <= pairs.len(),
            pairs@ == sort_keys(weights@).sort_by(pair_order()),
            order@ == ranking(weights@).take(k as int),
        decreases pairs.len() - k,
    {
        order.push(pairs[k].1);
        assert(order@ =~= ranking(weights@).take(k + 1));
        k = k + 1;
    }
    assert(order@ =~= ranking(weights@));
    order
}

/// The weight by which a hit is ranked: its score, shifted to be positive.
pub open spec fn weight_of(hit: HitView) -> u128 {
    (hit.score - i64::MIN) as u128
}

/// The weights of a list of hits, hit by hit.
pub open spec fn weights_of(hits: Seq<HitView>) -> Seq<u128> {
    Seq::new(hits.len(), |i: int| weight_of(hits[i]))
}

/// The best `limit` of `hits`: highest score first, equal scores in the
/// order of `hits`.
pub open spec fn ranked(hits: Seq<HitView>, limit: nat) -> Seq<HitView> {
    let order = ranking(weights_of(hits));
    Seq::new(
        if limit < hits.len() {
            limit
        } else {
            hits.len()
        },
        |k: int| hits[order[k] as int],
    )
}

/// A ranked list is cut at `limit`, holds hits of the input only, and its
/// scores never go up.
pub proof fn lemma_ranked(hits: Seq<HitView>, limit: nat)
    requires
        hits.len() <= usize::MAX,
    ensures
        ranked(hits, limit).len() <= limit,
        ranked(hits, limit).len() <= hits.len(),
        forall|k: int|
            0 <= k < ranked(hits, limit).len() ==> hits.contains(#[trigger] ranked(hits, limit)[k]),
        forall|a: int, b: int|
            0 <= a < b < ranked(hits, limit).len() ==> (#[trigger] ranked(hits, limit)[a]).score
                >= (#[trigger] ranked(hits, limit)[b]).score,
{
    let weights = weights_of(hits);
    let order = ranking(weights);
    lemma_ranking(weights);
    assert forall|a: int, b: int| 0 <= a < b < ranked(hits, limit).len() implies (
    #[trigger] ranked(hits, limit)[a]).score >= (#[trigger] ranked(hits, limit)[b]).score by {
        assert(ranks_before(weights, order[a] as int, order[b] as int));
    }
}

/// The best `limit` of `hits`: highest score first, equal scores in the
/// order of `hits`.
pub fn take_ranked(hits: &Vec<SearchHit>, limit: usize) -> (top: Vec<SearchHit>)
    ensures
        hit_views(top@) == ranked(hit_views(hits@), limit as nat),
        top.len() <= limit,
        top.len() <= hits.len(),
{
    let ghost views = hit_views(hits@);
    let mut weights: Vec<u128> = Vec::new();
    let mut i: usize = 0;
    while i < hits.len()
        invariant
            i <= hits.len(),
            views == hit_views(hits@),
            weights@ == weights_of(views).take(i as int),
        decreases hits.len() - i,
    {
        let shifted: i128 = hits[i].score as i128 - i64::MIN as i128;
        weights.push(shifted as u128);
        assert(weights@ =~= weights_of(views).take(i + 1));
        i = i + 1;
    }
    assert(weights@ =~= weights_of(views));
    let order = rank(&weights);
    let mut top: Vec<SearchHit> = Vec::new();
    let mut k: usize = 0;
    while k < limit && k < order.len()
        invariant
            k <= limit,
            k <= order.len(),
            order.len() == hits.len(),
            views == hit_views(hits@),
            is_ranking(order@, weights@),
            order@ == ranking(weights_of(views)),
            top.len() == k,
            forall|j: int| 0 <= j < k ==> (#[trigger] top[j])@ == views[order[j] as int],
        decreases order.len() - k,
    {
        top.push(hits[order[k]].clone());
        k = k + 1;
    }
    assert(hit_views(top@) =~= ranked(views, limit as nat));
    top
}

} // verus!
