//! BM25 scoring of a query against a corpus of term bags.
//!
//! With `N` bags of `L` terms in all, a term that occurs `tf` times in a bag
//! of `dl` terms and in `df` bags at all adds
//! `idf * tf * 2.2 / (tf + 1.2 * (0.25 + 0.75 * dl * N / L))` to the bag's
//! score, where `idf = log2((N + 1) / (df + 0.5))`. Scores are kept as
//! integers: the logarithm in units of `1 / LOG_ONE`, the quotient rounded
//! down, but never below one unit for a term that occurs, so that a bag
//! matches exactly when it holds a term of the query. The ranked scores are
//! then scaled so that the best is `SCORE_ONE`; the base of the logarithm
//! cancels in that step.

use vstd::prelude::*;
use vstd::multiset::Multiset;
use crate::hit::SCORE_ONE;
use vstd::arithmetic::power::pow;
use vstd::arithmetic::power2::{lemma_pow2_adds, lemma_pow2_pos, pow2};
use crate::logarithm::{
    lemma_log2_bracket, lemma_log2_monotone, lemma_scaled_upper, log2, log2_fixed, LOG_LIMIT,
    LOG_ONE,
};
use crate::ranking::{is_ranking, lemma_ranking, lists, rank, ranking, ranks_before};
use crate::searcher::Searcher;
use crate::terms::TermCounts;
use crate::text::strs;

verus! {

/// The most bags, and the most terms in all, that an index holds.
pub const CORPUS_LIMIT: usize = 0xFFFF_FFFF;

/// No raw score exceeds this.
pub const RAW_LIMIT: u128 = 0x1_0000_0000_0000_0000_0000_0000;

/// The number of the first `n` bags that hold `term`.
pub open spec fn doc_frequency(docs: Seq<Multiset<Seq<char>>>, term: Seq<char>, n: nat) -> nat
    decreases n,
{
    if n == 0 {
        0
    } else {
        doc_frequency(docs, term, (n - 1) as nat) + if docs[n - 1].count(term) > 0 {
            1nat
        } else {
            0nat
        }
    }
}

/// The number of terms in the first `n` bags.
pub open spec fn total_terms(docs: Seq<Multiset<Seq<char>>>, n: nat) -> nat
    decreases n,
{
    if n == 0 {
        0
    } else {
        total_terms(docs, (n - 1) as nat) + docs[n - 1].len()
    }
}

/// Whether an index can hold `docs`.
pub open spec fn fits(docs: Seq<Multiset<Seq<char>>>) -> bool {
    docs.len() <= CORPUS_LIMIT && total_terms(docs, docs.len()) <= CORPUS_LIMIT
}

/// The inverse document frequency of a term held by `holders` of `count`
/// bags: `log2((2 count + 2) / (2 holders + 1))` in units of `1 / LOG_ONE`.
pub open spec fn idf(count: nat, holders: nat) -> nat {
    let all = log2_fixed(2 * count + 2);
    let held = log2_fixed(2 * holders + 1);
    if all >= held {
        (all - held) as nat
    } else {
        0
    }
}

/// What `term` adds to the score of bag `i`: nothing where the bag lacks
/// it, else the rounded-down product of `idf` and the length-normalized
/// frequency, and at least one unit.
pub open spec fn term_weight(docs: Seq<Multiset<Seq<char>>>, term: Seq<char>, i: int) -> nat {
    let n = docs.len();
    let tf = docs[i].count(term);
    let total = total_terms(docs, n);
    if tf == 0 {
        0
    } else {
        let product = idf(n, doc_frequency(docs, term, n)) * (22 * tf * total) / (10 * tf * total
            + 3 * total + 9 * docs[i].len() * n);
        if product < 1 {
            1
        } else {
            product as nat
        }
    }
}

/// Whether `bag` holds one of the first `m` terms of `query`.
pub open spec fn shares_term(bag: Multiset<Seq<char>>, query: Seq<Seq<char>>, m: nat) -> bool {
    exists|j: int| 0 <= j < m && bag.count(#[trigger] query[j]) > 0
}

/// Whether `found` lists the bag at position `i`.
pub open spec fn found_at(found: Seq<Scored>, i: int) -> bool {
    exists|k: int| 0 <= k < found.len() && (#[trigger] found[k]).position == i
}

/// The score of bag `i` against the first `m` terms of `query`.
pub open spec fn raw_score(
    docs: Seq<Multiset<Seq<char>>>,
    query: Seq<Seq<char>>,
    i: int,
    m: nat,
) -> nat
    decreases m,
{
    if m == 0 {
        0
    } else {
        raw_score(docs, query, i, (m - 1) as nat) + term_weight(docs, query[m - 1], i)
    }
}

/// The score of every bag against `query`.
pub open spec fn raw_scores(docs: Seq<Multiset<Seq<char>>>, query: Seq<Seq<char>>) -> Seq<u128> {
    Seq::new(docs.len(), |i: int| raw_score(docs, query, i, query.len()) as u128)
}

/// `raw / top` in units of `1 / SCORE_ONE`, rounded up.
pub open spec fn normalized(raw: nat, top: nat) -> nat {
    ((raw * SCORE_ONE + top - 1) / (top as int)) as nat
}

/// How many of the first `cap` ranked bags match: the ranked bags up to the
/// first one whose score is zero.
pub open spec fn leading_matches(raw: Seq<u128>, order: Seq<usize>, cap: nat) -> nat
    decreases cap,
{
    if cap == 0 {
        0
    } else {
        let before = leading_matches(raw, order, (cap - 1) as nat);
        if before == cap - 1 && cap - 1 < order.len() && raw[order[cap - 1] as int] > 0 {
            cap
        } else {
            before
        }
    }
}

/// A bag and its score in a result list.
#[derive(Clone, Copy, Debug, PartialEq, Eq, Structural)]
pub struct Scored {
    /// Position of the bag in the corpus.
    pub position: usize,
    /// Score relative to the best match, in units of `1 / SCORE_ONE`.
    pub score: i64,
}

/// The best `limit` matches of `query`: bags with a positive score, best
/// first and equal scores in corpus order, each scored relative to the best.
pub open spec fn top_matches(
    docs: Seq<Multiset<Seq<char>>>,
    query: Seq<Seq<char>>,
    limit: nat,
) -> Seq<Scored> {
    let raw = raw_scores(docs, query);
    let order = ranking(raw);
    Seq::new(
        leading_matches(raw, order, limit),
        |k: int|
            Scored {
                position: order[k],
                score: normalized(raw[order[k] as int] as nat, raw[order[0] as int] as nat) as i64,
            },
    )
}

/// The bags of the term lists `docs`.
pub open spec fn doc_bags(docs: Seq<Vec<String>>) -> Seq<Multiset<Seq<char>>> {
    Seq::new(docs.len(), |i: int| strs(docs[i]@).to_multiset())
}

proof fn lemma_total_terms_grows(docs: Seq<Multiset<Seq<char>>>, a: nat, b: nat)
    requires
        a <= b,
    ensures
        total_terms(docs, a) <= total_terms(docs, b),
    decreases b,
{
    if a < b {
        lemma_total_terms_grows(docs, a, (b - 1) as nat);
    }
}

proof fn lemma_total_terms_member(docs: Seq<Multiset<Seq<char>>>, i: int, n: nat)
    requires
        0 <= i < n,
    ensures
        docs[i].len() <= total_terms(docs, n),
    decreases n,
{
    if i < n - 1 {
        lemma_total_terms_member(docs, i, (n - 1) as nat);
    }
}

/// A term weighs something exactly where the bag holds it, and never more
/// than `2^32`.
pub proof fn lemma_term_weight(docs: Seq<Multiset<Seq<char>>>, term: Seq<char>, i: int)
    requires
        0 <= i < docs.len(),
    ensures
        term_weight(docs, term, i) > 0 <==> docs[i].count(term) > 0,
        term_weight(docs, term, i) <= 0x1_0000_0000,
{
    let n = docs.len();
    let tf = docs[i].count(term);
    let total = total_terms(docs, n);
    if tf > 0 {
        let weight = idf(n, doc_frequency(docs, term, n)) as int;
        lemma_scaled_upper(2 * n + 2, 62);
        lemma_total_terms_member(docs, i, n);
        vstd::multiset::axiom_count_le_len(docs[i], term);
        let num: int = (22 * tf * total) as int;
        let den: int = (10 * tf * total + 3 * total + 9 * docs[i].len() * n) as int;
        assert(num >= 0 && den > 0 && num <= 3 * den) by (nonlinear_arith)
            requires
                num == 22 * tf * total,
                den == 10 * tf * total + 3 * total + 9 * docs[i].len() * n,
                tf >= 1,
                total >= 1,
        ;
        assert(weight * num / den <= 3 * weight) by (nonlinear_arith)
            requires
                weight >= 0,
                0 <= num <= 3 * den,
                den > 0,
        ;
    }
}

/// A bag scores above zero exactly where it holds a term of the query.
pub proof fn lemma_raw_score(
    docs: Seq<Multiset<Seq<char>>>,
    query: Seq<Seq<char>>,
    i: int,
    m: nat,
)
    requires
        0 <= i < docs.len(),
        m <= query.len(),
    ensures
        raw_score(docs, query, i, m) > 0 <==> shares_term(docs[i], query, m),
        raw_score(docs, query, i, m) <= m * 0x1_0000_0000,
    decreases m,
{
    if m > 0 {
        lemma_raw_score(docs, query, i, (m - 1) as nat);
        lemma_term_weight(docs, query[m - 1], i);
        if shares_term(docs[i], query, m) {
            let j = choose|j: int| 0 <= j < m && docs[i].count(#[trigger] query[j]) > 0;
            if j < m - 1 {
                assert(shares_term(docs[i], query, (m - 1) as nat));
            }
        }
        if raw_score(docs, query, i, m) > 0 {
            if term_weight(docs, query[m - 1], i) > 0 {
                assert(docs[i].count(query[m - 1]) > 0);
            } else {
                let j = choose|j: int| 0 <= j < m - 1 && docs[i].count(#[trigger] query[j]) > 0;
                assert(docs[i].count(query[j]) > 0);
            }
        }
    }
}

/// Accuracy of the inverse document frequency: `2^idf` is within a factor
/// of four of `((2 count + 2) / (2 holders + 1))^LOG_ONE`, so `idf` is
/// within two units of the real logarithm of that ratio in units of
/// `1 / LOG_ONE`.
pub proof fn lemma_idf_accuracy(count: nat, holders: nat)
    requires
        holders <= count,
        2 * count + 2 < LOG_LIMIT,
    ensures
        pow2(idf(count, holders)) * pow((2 * holders + 1) as int, LOG_ONE as nat) < 4 * pow(
            (2 * count + 2) as int,
            LOG_ONE as nat,
        ),
        pow((2 * count + 2) as int, LOG_ONE as nat) < 4 * pow2(idf(count, holders)) * pow(
            (2 * holders + 1) as int,
            LOG_ONE as nat,
        ),
{
    let all = log2_fixed(2 * count + 2);
    let held = log2_fixed(2 * holders + 1);
    let a = pow((2 * count + 2) as int, LOG_ONE as nat);
    let b = pow((2 * holders + 1) as int, LOG_ONE as nat);
    lemma_log2_monotone(2 * holders + 1, 2 * count + 2);
    lemma_log2_bracket(2 * count + 2);
    lemma_log2_bracket(2 * holders + 1);
    let d = idf(count, holders);
    assert(all == held + d);
    lemma_pow2_adds(d, held);
    lemma_pow2_adds(held, 2);
    lemma_pow2_adds(all, 2);
    lemma_pow2_pos(held);
    lemma_pow2_pos(d);
    vstd::arithmetic::power2::lemma2_to64();
    let pd = pow2(d) as int;
    let ph = pow2(held) as int;
    assert(pd * b < 4 * a) by (nonlinear_arith)
        requires
            pd * ph <= a,
            b < ph * 4,
            pd >= 1,
            ph >= 1,
            b >= 0,
    ;
    assert(a < 4 * pd * b) by (nonlinear_arith)
        requires
            a < (pd * ph) * 4,
            ph <= b,
            pd >= 1,
            ph >= 1,
    ;
}

/// Scaling keeps a positive score positive and at most `SCORE_ONE`, and
/// gives the best score exactly `SCORE_ONE`.
pub proof fn lemma_normalized(raw: nat, top: nat)
    requires
        0 < raw <= top,
    ensures
        0 < normalized(raw, top) <= SCORE_ONE,
        raw == top ==> normalized(raw, top) == SCORE_ONE,
{
    let one = SCORE_ONE as int;
    let num = raw * one + top - 1;
    let t = top as int;
    assert(num >= t) by (nonlinear_arith)
        requires
            raw >= 1,
            one >= 1,
            num == raw * one + top - 1,
            t == top,
    ;
    assert(num < (one + 1) * t) by (nonlinear_arith)
        requires
            raw <= top,
            one >= 1,
            top >= 1,
            num == raw * one + top - 1,
            t == top,
    ;
    assert(1 <= num / t <= one) by (nonlinear_arith)
        requires
            t >= 1,
            t <= num < (one + 1) * t,
    ;
    if raw == top {
        assert(num / t >= one) by (nonlinear_arith)
            requires
                t >= 1,
                num >= one * t,
        ;
    }
}

proof fn lemma_leading_bounds(raw: Seq<u128>, order: Seq<usize>, cap: nat)
    ensures
        leading_matches(raw, order, cap) <= cap,
        leading_matches(raw, order, cap) <= order.len(),
        forall|k: int|
            0 <= k < leading_matches(raw, order, cap) ==> raw[#[trigger] order[k] as int] > 0,
    decreases cap,
{
    if cap > 0 {
        lemma_leading_bounds(raw, order, (cap - 1) as nat);
    }
}

proof fn lemma_leading_stops(raw: Seq<u128>, order: Seq<usize>, k: nat, cap: nat)
    requires
        leading_matches(raw, order, k) == k,
        k == order.len() || raw[order[k as int] as int] == 0,
        k <= cap,
    ensures
        leading_matches(raw, order, cap) == k,
    decreases cap,
{
    if cap > k {
        lemma_leading_stops(raw, order, k, (cap - 1) as nat);
    }
}

proof fn lemma_leading_ends(raw: Seq<u128>, order: Seq<usize>, cap: nat)
    ensures
        leading_matches(raw, order, cap) < cap && leading_matches(raw, order, cap) < order.len()
            ==> raw[order[leading_matches(raw, order, cap) as int] as int] == 0,
    decreases cap,
{
    if cap > 0 {
        lemma_leading_ends(raw, order, (cap - 1) as nat);
    }
}

/// With room for the whole corpus, the matches are exactly the bags that
/// hold a term of the query.
pub proof fn lemma_matches_share_a_term(
    docs: Seq<Multiset<Seq<char>>>,
    query: Seq<Seq<char>>,
    limit: nat,
    i: int,
)
    requires
        docs.len() <= usize::MAX,
        query.len() <= usize::MAX,
        limit >= docs.len(),
        0 <= i < docs.len(),
    ensures
        found_at(top_matches(docs, query, limit), i) <==> shares_term(docs[i], query, query.len()),
{
    let raw = raw_scores(docs, query);
    let order = ranking(raw);
    let found = top_matches(docs, query, limit);
    let count = leading_matches(raw, order, limit);
    lemma_ranking(raw);
    lemma_leading_bounds(raw, order, limit);
    lemma_leading_ends(raw, order, limit);
    assert forall|j: int| 0 <= j < docs.len() implies (#[trigger] raw[j] > 0 <==> shares_term(
        docs[j],
        query,
        query.len(),
    )) by {
        lemma_raw_score(docs, query, j, query.len());
        assert(query.len() * 0x1_0000_0000 <= 0xFFFF_FFFF_FFFF_FFFF * 0x1_0000_0000)
            by (nonlinear_arith)
            requires
                query.len() <= 0xFFFF_FFFF_FFFF_FFFF,
        ;
    }
    if found_at(found, i) {
        let k = choose|k: int| 0 <= k < found.len() && (#[trigger] found[k]).position == i;
        assert(raw[order[k] as int] > 0);
    }
    if shares_term(docs[i], query, query.len()) {
        assert(raw[i] > 0);
        assert(lists(order, i));
        let k = choose|k: int| 0 <= k < order.len() && #[trigger] order[k] == i;
        if k >= count {
            assert(raw[order[count as int] as int] == 0);
            if k > count {
                assert(ranks_before(raw, order[count as int] as int, order[k] as int));
            }
            assert(false);
        }
        assert(found[k].position == i);
    }
}

/// The first bag of a ranking has the greatest score.
pub proof fn lemma_first_is_top(raw: Seq<u128>, order: Seq<usize>, i: int)
    requires
        is_ranking(order, raw),
        0 <= i < raw.len(),
    ensures
        raw[order[0] as int] >= raw[i],
{
    assert(lists(order, i));
    let k = choose|k: int| 0 <= k < order.len() && #[trigger] order[k] == i;
    if k > 0 {
        assert(ranks_before(raw, order[0] as int, order[k] as int));
    }
}

/// A bag that has the greatest score of its corpus, and a positive one, is
/// scored `SCORE_ONE`, which no bag of any corpus exceeds. So where the best
/// match of a corpus is added to it once more and is still a best match, its
/// score relative to the best has not gone down.
pub proof fn lemma_top_keeps_score(
    before: Seq<Multiset<Seq<char>>>,
    after: Seq<Multiset<Seq<char>>>,
    query: Seq<Seq<char>>,
    i: int,
)
    requires
        0 <= i < before.len(),
        before.len() <= usize::MAX,
        after == before.push(before[i]),
        after.len() <= usize::MAX,
        raw_scores(before, query)[i] > 0,
        raw_scores(after, query)[i] > 0,
        forall|j: int| 0 <= j < after.len() ==> raw_scores(after, query)[i] >= raw_scores(after, query)[j],
    ensures
        normalized(
            raw_scores(after, query)[i] as nat,
            raw_scores(after, query)[ranking(raw_scores(after, query))[0] as int] as nat,
        ) == SCORE_ONE,
        normalized(
            raw_scores(before, query)[i] as nat,
            raw_scores(before, query)[ranking(raw_scores(before, query))[0] as int] as nat,
        ) <= SCORE_ONE,
{
    let raw_b = raw_scores(before, query);
    let raw_a = raw_scores(after, query);
    lemma_ranking(raw_b);
    lemma_ranking(raw_a);
    lemma_first_is_top(raw_b, ranking(raw_b), i);
    lemma_first_is_top(raw_a, ranking(raw_a), i);
    let top_a = ranking(raw_a)[0] as int;
    assert(raw_a[i] >= raw_a[top_a]);
    lemma_normalized(raw_a[i] as nat, raw_a[top_a] as nat);
    lemma_normalized(raw_b[i] as nat, raw_b[ranking(raw_b)[0] as int] as nat);
}

/// Term statistics of a corpus, ready for scoring.
pub struct Bm25Index {
    stats: Vec<TermCounts>,
    total: usize,
}

impl View for Bm25Index {
    type V = Seq<Multiset<Seq<char>>>;

    closed spec fn view(&self) -> Seq<Multiset<Seq<char>>> {
        Seq::new(self.stats@.len(), |i: int| self.stats@[i]@)
    }
}

impl Bm25Index {
    /// The index holds the statistics of its bags and stays within
    /// `CORPUS_LIMIT`.
    pub closed spec fn wf(&self) -> bool {
        &&& self.stats.len() <= CORPUS_LIMIT
        &&& self.total <= CORPUS_LIMIT
        &&& self.total == total_terms(self@, self.stats.len() as nat)
        &&& forall|i: int| 0 <= i < self.stats.len() ==> (#[trigger] self.stats[i]).wf()
    }

    /// A well-formed index fits.
    pub proof fn lemma_wf_fits(&self)
        requires
            self.wf(),
        ensures
            fits(self@),
    {
    }

    /// Indexes the term lists `docs`, one bag per list. There is no index
    /// for more than `CORPUS_LIMIT` lists or terms.
    pub fn build(docs: &Vec<Vec<String>>) -> (index: Option<Bm25Index>)
        ensures
            index is Some <==> fits(doc_bags(docs@)),
            index is Some ==> index->0.wf() && index->0@ == doc_bags(docs@),
    {
        let ghost bags = doc_bags(docs@);
        if docs.len() > CORPUS_LIMIT {
            return None;
        }
        let mut stats: Vec<TermCounts> = Vec::new();
        let mut total: usize = 0;
        let mut i: usize = 0;
        while i < docs.len()
            invariant
                i <= docs.len(),
                docs.len() <= CORPUS_LIMIT,
                bags == doc_bags(docs@),
                stats.len() == i,
                total == total_terms(bags, i as nat),
                total <= CORPUS_LIMIT,
                forall|k: int| 0 <= k < i ==> (#[trigger] stats[k]).wf() && stats[k]@ == bags[k],
            decreases docs.len() - i,
        {
            let counts = Searcher::count_tokens(docs[i].as_slice());
            let length = counts.total();
            if length > CORPUS_LIMIT - total {
                proof {
                    lemma_total_terms_grows(bags, (i + 1) as nat, docs.len() as nat);
                }
                return None;
            }
            total = total + length;
            stats.push(counts);
            i = i + 1;
        }
        let index = Bm25Index { stats, total };
        assert(index@ =~= bags);
        Some(index)
    }

    /// The number of bags.
    pub fn len(&self) -> (n: usize)
        ensures
            n == self@.len(),
    {
        self.stats.len()
    }

    /// The number of bags that hold `term`.
    fn holders(&self, term: &String) -> (df: usize)
        requires
            self.wf(),
        ensures
            df == doc_frequency(self@, term@, self@.len()),
            df <= self@.len(),
    {
        let mut df: usize = 0;
        let mut i: usize = 0;
        while i < self.stats.len()
            invariant
                self.wf(),
                i <= self.stats.len(),
                df <= i,
                df == doc_frequency(self@, term@, i as nat),
            decreases self.stats.len() - i,
        {
            if self.stats[i].get(term) > 0 {
                df = df + 1;
            }
            i = i + 1;
        }
        df
    }

    /// What `term` adds to the score of bag `i`, given its `idf`.
    fn weight(&self, i: usize, term: &String, idf_of_term: u64) -> (w: u128)
        requires
            self.wf(),
            i < self@.len(),
            idf_of_term == idf(self@.len(), doc_frequency(self@, term@, self@.len())),
            idf_of_term < 63 * LOG_ONE,
        ensures
            w == term_weight(self@, term@, i as int),
            w <= 0x1_0000_0000,
    {
        let tf = self.stats[i].get(term);
        if tf == 0 {
            return 0;
        }
        let dl = self.stats[i].total();
        let n = self.stats.len();
        proof {
            lemma_total_terms_member(self@, i as int, n as nat);
            vstd::multiset::axiom_count_le_len(self@[i as int], term@);
        }
        assert(1 <= tf * self.total <= 0xFFFF_FFFF * 0xFFFF_FFFF) by (nonlinear_arith)
            requires
                1 <= tf <= 0xFFFF_FFFF,
                tf <= self.total <= 0xFFFF_FFFF,
        ;
        let tf_total: u128 = (tf as u128) * (self.total as u128);
        assert(dl * n <= 0xFFFF_FFFF * 0xFFFF_FFFF) by (nonlinear_arith)
            requires
                dl <= 0xFFFF_FFFF,
                n <= 0xFFFF_FFFF,
        ;
        let dl_n: u128 = (dl as u128) * (n as u128);
        let num: u128 = 22 * tf_total;
        let den: u128 = 10 * tf_total + 3 * (self.total as u128) + 9 * dl_n;
        assert(idf_of_term * num <= (63 * 0x100_0000) * (22 * (0xFFFF_FFFF * 0xFFFF_FFFF))
            && idf_of_term * num <= 3 * idf_of_term * den) by (nonlinear_arith)
            requires
                0 <= idf_of_term < 63 * 0x100_0000,
                0 <= num <= 22 * (0xFFFF_FFFF * 0xFFFF_FFFF),
                num <= 3 * den,
        ;
        let scaled: u128 = (idf_of_term as u128) * num;
        let product = scaled / den;
        assert(product <= 3 * idf_of_term) by (nonlinear_arith)
            requires
                product == scaled / den,
                den > 0,
                scaled <= 3 * idf_of_term * den,
        ;
        let w: u128 = if product < 1 {
            1
        } else {
            product
        };
        proof {
            assert(22 * tf * self.total == num) by (nonlinear_arith)
                requires
                    num == 22 * tf_total,
                    tf_total == tf * self.total,
            ;
            assert(10 * tf * self.total + 3 * self.total + 9 * dl * n == den) by (nonlinear_arith)
                requires
                    den == 10 * tf_total + 3 * self.total + 9 * dl_n,
                    tf_total == tf * self.total,
                    dl_n == dl * n,
            ;
        }
        w
    }

    /// The score of every bag against `query`.
    pub fn scores(&self, query: &Vec<String>) -> (raw: Vec<u128>)
        requires
            self.wf(),
        ensures
            raw@ == raw_scores(self@, strs(query@)),
            forall|i: int| 0 <= i < raw.len() ==> #[trigger] raw[i] <= RAW_LIMIT,
    {
        let n = self.stats.len();
        let m = query.len();
        let ghost docs = self@;
        let ghost q = strs(query@);
        let log_n = log2(2 * (n as u64) + 2);
        let mut idfs: Vec<u64> = Vec::new();
        let mut j: usize = 0;
        while j < m
            invariant
                self.wf(),
                docs == self@,
                q == strs(query@),
                n == docs.len(),
                m == query.len(),
                j <= m,
                idfs.len() == j,
                log_n == log2_fixed((2 * n + 2) as nat),
                log_n < 63 * LOG_ONE,
                forall|t: int|
                    0 <= t < j ==> #[trigger] idfs[t] == idf(
                        n as nat,
                        doc_frequency(docs, q[t], n as nat),
                    ) && idfs[t] < 63 * LOG_ONE,
            decreases m - j,
        {
            let df = self.holders(&query[j]);
            proof {
                lemma_log2_monotone((2 * df + 1) as nat, (2 * n + 2) as nat);
            }
            let log_df = log2(2 * (df as u64) + 1);
            idfs.push(log_n - log_df);
            j = j + 1;
        }
        let mut raw: Vec<u128> = Vec::new();
        let mut i: usize = 0;
        while i < n
            invariant
                self.wf(),
                docs == self@,
                q == strs(query@),
                n == docs.len(),
                m == query.len(),
                i <= n,
                raw.len() == i,
                idfs.len() == m,
                forall|t: int|
                    0 <= t < m ==> #[trigger] idfs[t] == idf(
                        n as nat,
                        doc_frequency(docs, q[t], n as nat),
                    ) && idfs[t] < 63 * LOG_ONE,
                forall|k: int|
                    0 <= k < i ==> #[trigger] raw[k] == raw_score(docs, q, k, m as nat) && raw[k]
                        <= RAW_LIMIT,
            decreases n - i,
        {
            let mut sum: u128 = 0;
            let mut j: usize = 0;
            while j < m
                invariant
                    self.wf(),
                    docs == self@,
                    q == strs(query@),
                    n == docs.len(),
                    m == query.len(),
                    i < n,
                    j <= m,
                    idfs.len() == m,
                    forall|t: int|
                        0 <= t < m ==> #[trigger] idfs[t] == idf(
                            n as nat,
                            doc_frequency(docs, q[t], n as nat),
                        ) && idfs[t] < 63 * LOG_ONE,
                    sum == raw_score(docs, q, i as int, j as nat),
                    sum <= j * 0x1_0000_0000,
                decreases m - j,
            {
                let w = self.weight(i, &query[j], idfs[j]);
                sum = sum + w;
                j = j + 1;
            }
            raw.push(sum);
            i = i + 1;
        }
        assert(raw@ =~= raw_scores(docs, q));
        raw
    }

    /// The best `limit` matches of `query`, best first.
    pub fn search(&self, query: &Vec<String>, limit: usize) -> (found: Vec<Scored>)
        requires
            self.wf(),
        ensures
            found@ == top_matches(self@, strs(query@), limit as nat),
            found.len() <= limit,
            found.len() <= self@.len(),
            forall|k: int|
                0 <= k < found.len() ==> (#[trigger] found[k]).position < self@.len() && 0
                    < found[k].score <= SCORE_ONE,
            found.len() > 0 ==> found[0].score == SCORE_ONE,
    {
        let raw = self.scores(query);
        let order = rank(&raw);
        let ghost want = top_matches(self@, strs(query@), limit as nat);
        let mut found: Vec<Scored> = Vec::new();
        let mut k: usize = 0;
        while k < limit && k < order.len() && raw[order[k]] > 0
            invariant
                k <= limit,
                k <= order.len(),
                order.len() == raw.len(),
                raw.len() == self@.len(),
                is_ranking(order@, raw@),
                order@ == ranking(raw@),
                raw@ == raw_scores(self@, strs(query@)),
                forall|i: int| 0 <= i < raw.len() ==> #[trigger] raw[i] <= RAW_LIMIT,
                leading_matches(raw@, order@, k as nat) == k,
                found.len() == k,
                forall|j: int|
                    0 <= j < k ==> (#[trigger] found[j]) == (Scored {
                        position: order[j],
                        score: normalized(
                            raw[order[j] as int] as nat,
                            raw[order[0] as int] as nat,
                        ) as i64,
                    }) && found[j].position < raw.len() && 0 < found[j].score <= SCORE_ONE,
                k > 0 ==> found[0].score == SCORE_ONE,
            decreases order.len() - k,
        {
            let top = raw[order[0]];
            let score = raw[order[k]];
            proof {
                lemma_first_is_top(raw@, order@, order[k as int] as int);
                lemma_normalized(score as nat, top as nat);
                assert(score * SCORE_ONE <= RAW_LIMIT * SCORE_ONE) by (nonlinear_arith)
                    requires
                        score <= RAW_LIMIT,
                ;
            }
            let scaled: u128 = (score * 1_000_000_000 + top - 1) / top;
            found.push(Scored { position: order[k], score: scaled as i64 });
            k = k + 1;
        }
        proof {
            if k < limit {
                lemma_leading_stops(raw@, order@, k as nat, limit as nat);
            }
            assert(found@ =~= want);
        }
        found
    }
}

} // verus!
