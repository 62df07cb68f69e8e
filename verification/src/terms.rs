//! Term frequencies of one chunk.

use vstd::prelude::*;
use vstd::multiset::Multiset;
use crate::searcher::Searcher;
use crate::text::strs;

verus! {

/// How often each term occurs in one list of terms.
///
/// The table stands for the bag of the terms it was counted from: the count
/// of a term is its multiplicity in that bag.
pub struct TermCounts {
    terms: Vec<String>,
    counts: Vec<usize>,
    total: usize,
    bag: Ghost<Multiset<Seq<char>>>,
}

impl View for TermCounts {
    type V = Multiset<Seq<char>>;

    closed spec fn view(&self) -> Multiset<Seq<char>> {
        self.bag@
    }
}

impl TermCounts {
    /// The table lists each term of its bag once, with its multiplicity.
    pub closed spec fn wf(&self) -> bool {
        &&& self.terms.len() == self.counts.len()
        &&& self.total == self.bag@.len()
        &&& forall|i: int|
            0 <= i < self.terms.len() ==> #[trigger] self.counts[i] == self.bag@.count(
                self.terms[i]@,
            )
        &&& forall|t: Seq<char>|
            self.bag@.count(t) > 0 ==> exists|i: int|
                0 <= i < self.terms.len() && #[trigger] self.terms[i]@ == t
        &&& forall|i: int, j: int|
            0 <= i < j < self.terms.len() ==> #[trigger] self.terms[i]@ != #[trigger] self.terms[j]@
    }

    /// How often `term` occurs.
    pub fn get(&self, term: &String) -> (count: usize)
        requires
            self.wf(),
        ensures
            count == self@.count(term@),
    {
        let mut i: usize = 0;
        while i < self.terms.len()
            invariant
                self.wf(),
                i <= self.terms.len(),
                forall|j: int| 0 <= j < i ==> #[trigger] self.terms[j]@ != term@,
            decreases self.terms.len() - i,
        {
            if self.terms[i] == *term {
                return self.counts[i];
            }
            i = i + 1;
        }
        0
    }

    /// The number of terms counted, repetitions included.
    pub fn total(&self) -> (total: usize)
        requires
            self.wf(),
        ensures
            total == self@.len(),
    {
        self.total
    }
}

impl Searcher {
    /// Counts how often each term occurs in `tokens`.
    pub fn count_tokens(tokens: &[String]) -> (freq: TermCounts)
        ensures
            freq.wf(),
            freq@ == strs(tokens@).to_multiset(),
    {
        let mut freq = TermCounts {
            terms: Vec::new(),
            counts: Vec::new(),
            total: 0,
            bag: Ghost(Multiset::empty()),
        };
        let ghost all = strs(tokens@);
        let mut i: usize = 0;
        proof {
            broadcast use vstd::seq_lib::group_to_multiset_ensures;

            assert(all.take(0) =~= Seq::<Seq<char>>::empty());
            assert(all.take(0).to_multiset() =~= Multiset::<Seq<char>>::empty());
        }
        while i < tokens.len()
            invariant
                i <= tokens.len(),
                all == strs(tokens@),
                freq.wf(),
                freq@ == all.take(i as int).to_multiset(),
            decreases tokens.len() - i,
        {
            let term = &tokens[i];
            let ghost before = freq@;
            proof {
                assert(all.take(i + 1) =~= all.take(i as int).push(term@));
                vstd::seq_lib::to_multiset_build(all.take(i as int), term@);
                vstd::seq_lib::to_multiset_len(all.take(i as int));
            }
            let ghost old_terms = freq.terms@;
            let ghost old_counts = freq.counts@;
            let mut j: usize = 0;
            let mut found = false;
            while j < freq.terms.len()
                invariant_except_break
                    !found,
                    forall|k: int| 0 <= k < j ==> #[trigger] freq.terms[k]@ != term@,
                invariant
                    j <= freq.terms.len(),
                    freq.wf(),
                    freq@ == before,
                    freq.terms@ == old_terms,
                    freq.counts@ == old_counts,
                ensures
                    found ==> j < freq.terms.len() && freq.terms[j as int]@ == term@,
                    !found ==> forall|k: int|
                        0 <= k < freq.terms.len() ==> #[trigger] freq.terms[k]@ != term@,
                decreases freq.terms.len() - j,
            {
                if freq.terms[j] == *term {
                    found = true;
                    break;
                }
                j = j + 1;
            }
            if found {
                let old_count = freq.counts[j];
                assert(old_count <= before.len());
                freq.counts.set(j, old_count + 1);
            } else {
                freq.terms.push(term.clone());
                freq.counts.push(1);
            }
            freq.total = freq.total + 1;
            freq.bag = Ghost(before.insert(term@));
            proof {
                let bag = before.insert(term@);
                assert forall|k: int| 0 <= k < freq.terms.len() implies #[trigger] freq.counts[k]
                    == bag.count(freq.terms[k]@) by {
                    if k < old_terms.len() {
                        assert(old_counts[k] == before.count(old_terms[k]@));
                        if found && k != j {
                            assert(old_terms[k]@ != old_terms[j as int]@);
                        }
                    } else {
                        if before.count(term@) > 0 {
                            let w = choose|w: int|
                                0 <= w < old_terms.len() && #[trigger] old_terms[w]@ == term@;
                            assert(false);
                        }
                    }
                }
                assert forall|t: Seq<char>| bag.count(t) > 0 implies exists|k: int|
                    0 <= k < freq.terms.len() && #[trigger] freq.terms[k]@ == t by {
                    if t == term@ {
                        if found {
                            assert(freq.terms[j as int]@ == t);
                        } else {
                            assert(freq.terms[freq.terms.len() - 1]@ == t);
                        }
                    } else {
                        assert(before.count(t) > 0);
                        let w = choose|w: int|
                            0 <= w < old_terms.len() && #[trigger] old_terms[w]@ == t;
                        assert(freq.terms[w]@ == t);
                    }
                }
                assert forall|a: int, b: int| 0 <= a < b < freq.terms.len() implies
                    #[trigger] freq.terms[a]@ != #[trigger] freq.terms[b]@ by {
                    if b < old_terms.len() {
                        assert(old_terms[a]@ != old_terms[b]@);
                    }
                }
            }
            i = i + 1;
        }
        assert(all.take(i as int) =~= all);
        freq
    }
}

} // verus!
