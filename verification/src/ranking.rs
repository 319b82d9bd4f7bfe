//! The order of entries by key, the larger key first, and of two equal keys
//! the later entry first: the rank of an entry in that order, and the
//! entries in the order of their ranks.

use vstd::prelude::*;
use vstd::relations::injective_on;
use vstd::set_lib::{lemma_int_range, lemma_len_subset, lemma_map_size, set_int_range};

verus! {

/// Entry `j` comes before entry `i`: its key is larger, or the keys are
/// equal and it is the later entry.
pub open spec fn precedes(keys: Seq<nat>, j: int, i: int) -> bool {
    keys[j] > keys[i] || (keys[j] == keys[i] && j > i)
}

/// The entries that come before entry `i`.
pub open spec fn ahead_of(keys: Seq<nat>, i: int) -> Set<int> {
    Set::new(|j: int| 0 <= j < keys.len() && precedes(keys, j, i))
}

/// The number of entries that come before entry `i`.
pub open spec fn rank(keys: Seq<nat>, i: int) -> nat {
    ahead_of(keys, i).len()
}

/// Machine integers read as keys.
pub open spec fn keys_of(s: Seq<u128>) -> Seq<nat> {
    Seq::new(s.len(), |i: int| s[i] as nat)
}

/// The entries that come before any entry are finitely many, fewer than all.
pub proof fn lemma_rank_below_len(keys: Seq<nat>, i: int)
    requires
        0 <= i < keys.len(),
    ensures
        ahead_of(keys, i).finite(),
        rank(keys, i) < keys.len(),
{
    let n = keys.len() as int;
    lemma_int_range(0, n);
    let rest = set_int_range(0, n).remove(i);
    assert(ahead_of(keys, i).subset_of(rest));
    lemma_len_subset(ahead_of(keys, i), rest);
}

/// An entry that comes before another has the smaller rank.
pub proof fn lemma_rank_follows_order(keys: Seq<nat>, k: int, i: int)
    requires
        0 <= i < keys.len(),
        0 <= k < keys.len(),
        precedes(keys, k, i),
    ensures
        rank(keys, k) < rank(keys, i),
{
    lemma_rank_below_len(keys, i);
    lemma_rank_below_len(keys, k);
    let above_i = ahead_of(keys, i);
    let above_k = ahead_of(keys, k);
    assert(above_i.contains(k));
    assert(above_k.subset_of(above_i.remove(k)));
    lemma_len_subset(above_k, above_i.remove(k));
}

/// Ranks are a numbering of the entries without repetition.
pub proof fn lemma_rank_injective(keys: Seq<nat>, i: int, k: int)
    requires
        0 <= i < keys.len(),
        0 <= k < keys.len(),
        i != k,
    ensures
        rank(keys, i) != rank(keys, k),
{
    if precedes(keys, k, i) {
        lemma_rank_follows_order(keys, k, i);
    } else {
        assert(precedes(keys, i, k));
        lemma_rank_follows_order(keys, i, k);
    }
}

/// The entries whose rank is below `limit`.
pub open spec fn ranked_within(keys: Seq<nat>, limit: int) -> Set<int> {
    Set::new(|i: int| 0 <= i < keys.len() && rank(keys, i) < limit)
}

/// Exactly `limit` entries have a rank below `limit`.
pub proof fn lemma_ranked_within_len(keys: Seq<nat>, limit: int)
    requires
        0 <= limit <= keys.len(),
    ensures
        ranked_within(keys, limit).finite(),
        ranked_within(keys, limit).len() == limit,
{
    let n = keys.len() as int;
    let all = set_int_range(0, n);
    lemma_int_range(0, n);
    lemma_int_range(0, limit);
    lemma_int_range(limit, n);
    let low = ranked_within(keys, limit);
    let high = Set::new(|i: int| 0 <= i < n && rank(keys, i) >= limit);
    let f = |i: int| rank(keys, i) as int;
    assert(low.subset_of(all));
    assert(high.subset_of(all));
    lemma_len_subset(low, all);
    lemma_len_subset(high, all);
    assert forall|i: int, k: int| low.contains(i) && low.contains(k) && #[trigger] f(i)
        == #[trigger] f(k) implies i == k by {
        if i != k {
            lemma_rank_injective(keys, i, k);
        }
    }
    assert forall|i: int, k: int| high.contains(i) && high.contains(k) && #[trigger] f(i)
        == #[trigger] f(k) implies i == k by {
        if i != k {
            lemma_rank_injective(keys, i, k);
        }
    }
    assert(injective_on(f, low));
    assert(injective_on(f, high));
    lemma_map_size(low, low.map(f), f);
    lemma_map_size(high, high.map(f), f);
    assert(low.map(f).subset_of(set_int_range(0, limit)));
    assert forall|r: int| high.map(f).contains(r) implies set_int_range(limit, n).contains(r) by {
        let i = choose|i: int| high.contains(i) && r == f(i);
        lemma_rank_below_len(keys, i);
    }
    assert(high.map(f).subset_of(set_int_range(limit, n)));
    lemma_len_subset(low.map(f), set_int_range(0, limit));
    lemma_len_subset(high.map(f), set_int_range(limit, n));
    assert(low.disjoint(high));
    assert(low + high =~= all);
    vstd::set_lib::lemma_set_disjoint_lens(low, high);
}



/// Every rank below the number of entries is the rank of an entry.
pub proof fn lemma_rank_onto(keys: Seq<nat>, r: int) -> (i: int)
    requires
        0 <= r < keys.len(),
    ensures
        0 <= i < keys.len(),
        rank(keys, i) == r,
{
    let upto = ranked_within(keys, r);
    let with = ranked_within(keys, r + 1);
    lemma_ranked_within_len(keys, r);
    lemma_ranked_within_len(keys, r + 1);
    if forall|i: int| 0 <= i < keys.len() ==> rank(keys, i) != r {
        assert(with =~= upto);
    }
    choose|i: int| 0 <= i < keys.len() && rank(keys, i) == r
}

/// The entries among the first `m` that come before entry `i`.
spec fn ahead_among(keys: Seq<nat>, i: int, m: int) -> Set<int> {
    Set::new(|j: int| 0 <= j < m && precedes(keys, j, i))
}

/// The rank of every entry.
pub fn ranks(keys: &Vec<u128>) -> (ranks: Vec<usize>)
    ensures
        ranks.len() == keys.len(),
        forall|i: int| 0 <= i < keys.len() ==> ranks[i] == rank(keys_of(keys@), i),
{
    let n = keys.len();
    let ghost order = keys_of(keys@);
    let mut ranks: Vec<usize> = Vec::new();
    let mut i: usize = 0;
    while i < n
        invariant
            i <= n,
            n == keys.len(),
            order == keys_of(keys@),
            ranks.len() == i,
            forall|k: int| 0 <= k < i ==> ranks[k] == rank(order, k),
        decreases n - i,
    {
        let mut ahead: usize = 0;
        let mut j: usize = 0;
        assert(ahead_among(order, i as int, 0) =~= Set::<int>::empty());
        while j < n
            invariant
                j <= n,
                i < n,
                n == keys.len(),
                order == keys_of(keys@),
                ahead_among(order, i as int, j as int).finite(),
                ahead == ahead_among(order, i as int, j as int).len(),
                ahead <= j,
            decreases n - j,
        {
            let ghost before = ahead_among(order, i as int, j as int);
            let ghost after = ahead_among(order, i as int, j + 1);
            if keys[j] > keys[i] || (keys[j] == keys[i] && j > i) {
                assert(after =~= before.insert(j as int));
                ahead += 1;
            } else {
                assert(after =~= before);
            }
            j += 1;
        }
        assert(ahead_among(order, i as int, n as int) =~= ahead_of(order, i as int));
        ranks.push(ahead);
        i += 1;
    }
    ranks
}

/// The first `top` entries in the order of their ranks, or all of them
/// where there are fewer: the entry of rank 0, then the entry of rank 1, and
/// so on.
pub fn leaders(keys: &Vec<u128>, top: usize) -> (order: Vec<usize>)
    ensures
        order.len() == if top <= keys.len() {
            top
        } else {
            keys.len()
        },
        forall|r: int|
            0 <= r < order.len() ==> order[r] < keys.len() && rank(keys_of(keys@), order[r] as int)
                == r,
{
    let n = keys.len();
    let ghost sequence = keys_of(keys@);
    let places = ranks(keys);
    let many = if top <= n {
        top
    } else {
        n
    };
    let mut order: Vec<usize> = Vec::new();
    let mut r: usize = 0;
    while r < many
        invariant
            r <= many,
            order.len() == r,
            forall|k: int| 0 <= k < r ==> order[k] == 0,
        decreases many - r,
    {
        order.push(0);
        r += 1;
    }
    let mut i: usize = 0;
    while i < n
        invariant
            i <= n,
            n == keys.len(),
            many <= n,
            order.len() == many,
            places.len() == n,
            sequence == keys_of(keys@),
            forall|k: int| 0 <= k < n ==> places[k] == rank(sequence, k),
            forall|r: int|
                0 <= r < many && (exists|k: int| 0 <= k < i && rank(sequence, k) == r) ==> order[r]
                    < n && rank(sequence, order[r] as int) == r,
        decreases n - i,
    {
        let place = places[i];
        if place < many {
            let ghost before = order@;
            order.set(place, i);
            assert forall|r: int|
                0 <= r < many && (exists|k: int| 0 <= k < i + 1 && rank(sequence, k) == r)
                implies order[r] < n && rank(sequence, order[r] as int) == r by {
                if r != place {
                    let k = choose|k: int| 0 <= k < i + 1 && rank(sequence, k) == r;
                    assert(k < i);
                    assert(order[r] == before[r]);
                }
            }
        } else {
            assert forall|r: int|
                0 <= r < many && (exists|k: int| 0 <= k < i + 1 && rank(sequence, k) == r)
                implies order[r] < n && rank(sequence, order[r] as int) == r by {
                let k = choose|k: int| 0 <= k < i + 1 && rank(sequence, k) == r;
                assert(k < i);
            }
        }
        i += 1;
    }
    assert forall|r: int| 0 <= r < order.len() implies order[r] < keys.len() && rank(
        sequence,
        order[r] as int,
    ) == r by {
        let k = lemma_rank_onto(sequence, r);
    }
    order
}

} // verus!
