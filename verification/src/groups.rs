//! Grouping items by key, groups in order of first appearance.

use vstd::prelude::*;

verus! {

/// What two items must share to fall into one group.
pub struct ItemKey {
    pub text: String,
    pub number: usize,
}

impl View for ItemKey {
    type V = (Seq<char>, usize);

    open spec fn view(&self) -> (Seq<char>, usize) {
        (self.text@, self.number)
    }
}

/// The keys of a list of items, item by item.
pub open spec fn key_views(keys: Seq<ItemKey>) -> Seq<(Seq<char>, usize)> {
    Seq::new(keys.len(), |i: int| keys[i]@)
}

/// Whether no item before `i` has the key of item `i`.
pub open spec fn is_first(keys: Seq<(Seq<char>, usize)>, i: int) -> bool {
    forall|j: int| 0 <= j < i ==> #[trigger] keys[j] != keys[i]
}

/// The positions among the first `n` items at which a key appears for the
/// first time, in ascending order: one per group.
pub open spec fn firsts(keys: Seq<(Seq<char>, usize)>, n: nat) -> Seq<usize>
    decreases n,
{
    if n == 0 {
        Seq::empty()
    } else if is_first(keys, n - 1) {
        firsts(keys, (n - 1) as nat).push((n - 1) as usize)
    } else {
        firsts(keys, (n - 1) as nat)
    }
}

/// The number of the first `n` items that have `key`.
pub open spec fn tally(keys: Seq<(Seq<char>, usize)>, key: (Seq<char>, usize), n: nat) -> nat
    decreases n,
{
    if n == 0 {
        0
    } else {
        tally(keys, key, (n - 1) as nat) + if keys[n - 1] == key {
            1nat
        } else {
            0nat
        }
    }
}

/// The sum of `values` over the first `n` items that have `key`.
pub open spec fn total(
    keys: Seq<(Seq<char>, usize)>,
    values: Seq<int>,
    key: (Seq<char>, usize),
    n: nat,
) -> int
    decreases n,
{
    if n == 0 {
        0
    } else {
        total(keys, values, key, (n - 1) as nat) + if keys[n - 1] == key {
            values[n - 1]
        } else {
            0
        }
    }
}

/// The position of the item that stands for its group among the first `n`
/// items with `key`: the first one that has the group's greatest score.
/// `-1` where none of the items has `key`.
pub open spec fn best_index(
    keys: Seq<(Seq<char>, usize)>,
    scores: Seq<i64>,
    key: (Seq<char>, usize),
    n: nat,
) -> int
    decreases n,
{
    if n == 0 {
        -1
    } else {
        let before = best_index(keys, scores, key, (n - 1) as nat);
        if keys[n - 1] != key {
            before
        } else if before < 0 || scores[n - 1] > scores[before] {
            n - 1
        } else {
            before
        }
    }
}

/// The greatest of the `scores` of the first `n` items that have `key`;
/// zero where none of the items has `key`.
pub open spec fn best_score(
    keys: Seq<(Seq<char>, usize)>,
    scores: Seq<i64>,
    key: (Seq<char>, usize),
    n: nat,
) -> int {
    let best = best_index(keys, scores, key, n);
    if best >= 0 {
        scores[best] as int
    } else {
        0
    }
}

/// Every listed position is a first appearance, and every key of the first
/// `n` items is listed through its first appearance.
pub proof fn lemma_firsts(keys: Seq<(Seq<char>, usize)>, n: nat)
    requires
        n <= keys.len(),
        keys.len() <= usize::MAX,
    ensures
        firsts(keys, n).len() <= n,
        forall|g: int|
            0 <= g < firsts(keys, n).len() ==> (#[trigger] firsts(keys, n)[g]) < n && is_first(
                keys,
                firsts(keys, n)[g] as int,
            ),
        forall|g: int, h: int|
            0 <= g < h < firsts(keys, n).len() ==> #[trigger] firsts(keys, n)[g]
                < #[trigger] firsts(keys, n)[h],
        forall|g: int, h: int|
            0 <= g < h < firsts(keys, n).len() ==> keys[#[trigger] firsts(keys, n)[g] as int]
                != keys[#[trigger] firsts(keys, n)[h] as int],
    decreases n,
{
    if n > 0 {
        lemma_firsts(keys, (n - 1) as nat);
        let prev = firsts(keys, (n - 1) as nat);
        let now = firsts(keys, n);
        if is_first(keys, n - 1) {
            assert forall|g: int, h: int| 0 <= g < h < now.len() implies keys[#[trigger] now[g] as int]
                != keys[#[trigger] now[h] as int] by {
                if h == prev.len() {
                    assert(now[g] == prev[g]);
                    assert(keys[prev[g] as int] != keys[n - 1]);
                } else {
                    assert(now[g] == prev[g] && now[h] == prev[h]);
                }
            }
            assert forall|g: int, h: int| 0 <= g < h < now.len() implies #[trigger] now[g]
                < #[trigger] now[h] by {
                if h == prev.len() {
                    assert(now[g] == prev[g]);
                } else {
                    assert(now[g] == prev[g] && now[h] == prev[h]);
                }
            }
        }
    }
}

/// More items never lower a count.
pub proof fn lemma_tally_grows(
    keys: Seq<(Seq<char>, usize)>,
    key: (Seq<char>, usize),
    a: nat,
    b: nat,
)
    requires
        a <= b,
    ensures
        tally(keys, key, a) <= tally(keys, key, b) <= tally(keys, key, a) + (b - a),
    decreases b,
{
    if a < b {
        lemma_tally_grows(keys, key, a, (b - 1) as nat);
    }
}

/// An item counts for its own key.
pub proof fn lemma_tally_member(keys: Seq<(Seq<char>, usize)>, i: int, n: nat)
    requires
        0 <= i < n,
    ensures
        tally(keys, keys[i], n) >= 1,
{
    lemma_tally_grows(keys, keys[i], (i + 1) as nat, n);
}

/// The item that stands for a group is one of its items, no item of the
/// group scores higher, and none before it scores as high.
pub proof fn lemma_best(
    keys: Seq<(Seq<char>, usize)>,
    scores: Seq<i64>,
    key: (Seq<char>, usize),
    n: nat,
)
    ensures
        -1 <= best_index(keys, scores, key, n) < n,
        tally(keys, key, n) > 0 <==> best_index(keys, scores, key, n) >= 0,
        best_index(keys, scores, key, n) >= 0 ==> keys[best_index(keys, scores, key, n)] == key,
        forall|j: int|
            0 <= j < n && keys[j] == key ==> #[trigger] scores[j] <= best_score(
                keys,
                scores,
                key,
                n,
            ),
        forall|j: int|
            0 <= j < best_index(keys, scores, key, n) && keys[j] == key ==> #[trigger] scores[j]
                < best_score(keys, scores, key, n),
    decreases n,
{
    if n > 0 {
        let m = (n - 1) as nat;
        lemma_best(keys, scores, key, m);
        let before = best_index(keys, scores, key, m);
        let now = best_index(keys, scores, key, n);
        let top = best_score(keys, scores, key, n);
        assert forall|j: int| 0 <= j < n && keys[j] == key implies #[trigger] scores[j] <= top by {
            if j < m {
                assert(scores[j] <= best_score(keys, scores, key, m));
                assert(before >= 0) by {
                    lemma_tally_member(keys, j, m);
                }
            }
        }
        assert forall|j: int| 0 <= j < now && keys[j] == key implies #[trigger] scores[j] < top by {
            if now == before {
                assert(scores[j] < best_score(keys, scores, key, m));
            } else {
                assert(now == n - 1);
                assert(scores[j] <= best_score(keys, scores, key, m));
                assert(before >= 0) by {
                    lemma_tally_member(keys, j, m);
                }
            }
        }
    }
}

fn same_key(a: &ItemKey, b: &ItemKey) -> (same: bool)
    ensures
        same == (a@ == b@),
{
    a.number == b.number && a.text == b.text
}

/// Groups the items: returns the position of each group's first item, and
/// for each item the number of its group.
pub fn assign_groups(keys: &Vec<ItemKey>) -> (groups: (Vec<usize>, Vec<usize>))
    ensures
        groups.0@ == firsts(key_views(keys@), keys.len() as nat),
        groups.1.len() == keys.len(),
        forall|i: int|
            0 <= i < keys.len() ==> (#[trigger] groups.1[i]) < groups.0.len() && key_views(
                keys@,
            )[groups.0[groups.1[i] as int] as int] == key_views(keys@)[i],
{
    let ghost kv = key_views(keys@);
    let mut heads: Vec<usize> = Vec::new();
    let mut group_of: Vec<usize> = Vec::new();
    let mut i: usize = 0;
    while i < keys.len()
        invariant
            i <= keys.len(),
            kv == key_views(keys@),
            heads@ == firsts(kv, i as nat),
            group_of.len() == i,
            forall|g: int| 0 <= g < heads.len() ==> (#[trigger] heads[g]) < i,
            forall|j: int|
                0 <= j < i ==> (#[trigger] group_of[j]) < heads.len() && kv[heads[group_of[j] as int] as int]
                    == kv[j],
        decreases keys.len() - i,
    {
        let mut g: usize = 0;
        let mut found = false;
        while g < heads.len()
            invariant_except_break
                !found,
                forall|h: int| 0 <= h < g ==> kv[#[trigger] heads[h] as int] != kv[i as int],
            invariant
                g <= heads.len(),
                i < keys.len(),
                kv == key_views(keys@),
                forall|h: int| 0 <= h < heads.len() ==> (#[trigger] heads[h]) < i,
            ensures
                found ==> g < heads.len() && kv[heads[g as int] as int] == kv[i as int],
                !found ==> g == heads.len() && forall|h: int|
                    0 <= h < heads.len() ==> kv[#[trigger] heads[h] as int] != kv[i as int],
            decreases heads.len() - g,
        {
            if same_key(&keys[heads[g]], &keys[i]) {
                found = true;
                break;
            }
            g = g + 1;
        }
        proof {
            if found {
                assert(kv[heads[g as int] as int] == kv[i as int]);
                assert(!is_first(kv, i as int));
            } else {
                assert forall|j: int| 0 <= j < i implies #[trigger] kv[j] != kv[i as int] by {
                    assert(kv[heads[group_of[j] as int] as int] == kv[j]);
                }
            }
        }
        let ghost old_heads = heads@;
        let ghost old_groups = group_of@;
        if !found {
            heads.push(i);
        }
        group_of.push(g);
        proof {
            assert forall|j: int| 0 <= j < i + 1 implies (#[trigger] group_of[j]) < heads.len()
                && kv[heads[group_of[j] as int] as int] == kv[j] by {
                if j < i {
                    assert(group_of[j] == old_groups[j]);
                    assert(old_groups[j] < old_heads.len());
                    assert(heads[old_groups[j] as int] == old_heads[old_groups[j] as int]);
                } else {
                    assert(group_of[j] == g);
                    if found {
                        assert(heads[g as int] == old_heads[g as int]);
                    } else {
                        assert(heads[g as int] == i);
                    }
                }
            }
        }
        i = i + 1;
    }
    (heads, group_of)
}

} // verus!
