//! Proportional allocation of an integer total by the largest remainder
//! method: what every entry receives, the function that hands it out, and the
//! proof that nothing is lost on the way.

use crate::ranking::{
    ahead_of, keys_of, lemma_rank_below_len, lemma_ranked_within_len, rank, ranked_within, ranks,
};
use vstd::arithmetic::div_mod::lemma_fundamental_div_mod;
use vstd::prelude::*;
use vstd::set_lib::lemma_len_subset;

verus! {

/// The sum of a sequence of naturals.
pub open spec fn sum(s: Seq<nat>) -> nat
    decreases s.len(),
{
    if s.len() == 0 {
        0
    } else {
        sum(s.drop_last()) + s.last()
    }
}

/// A sequence of machine integers read as naturals.
pub open spec fn nats(s: Seq<u32>) -> Seq<nat> {
    Seq::new(s.len(), |i: int| s[i] as nat)
}

/// The whole units of entry `i`'s ideal share `total * weights[i] / sum(weights)`.
pub open spec fn floor_share(total: nat, weights: Seq<nat>, i: int) -> nat {
    total * weights[i] / sum(weights)
}

/// What entry `i`'s ideal share leaves above its whole units, in units of
/// `1 / sum(weights)`.
pub open spec fn remainder(total: nat, weights: Seq<nat>, i: int) -> nat {
    total * weights[i] % sum(weights)
}

/// The provisional allocation: every entry's ideal share rounded down.
pub open spec fn floor_shares(total: nat, weights: Seq<nat>) -> Seq<nat> {
    Seq::new(weights.len(), |i: int| floor_share(total, weights, i))
}

/// Every entry's remainder, in entry order.
pub open spec fn remainders(total: nat, weights: Seq<nat>) -> Seq<nat> {
    Seq::new(weights.len(), |i: int| remainder(total, weights, i))
}

/// The units that rounding down has left undistributed.
pub open spec fn leftover(total: nat, weights: Seq<nat>) -> int {
    total - sum(floor_shares(total, weights))
}

/// What entry `i` receives: nothing when all weights are zero, else its
/// floor share, and one unit more if it is among the first `leftover` entries
/// in the order of the remainders, the largest first and of two equal ones
/// the later entry first.
pub open spec fn share(total: nat, weights: Seq<nat>, i: int) -> nat {
    if sum(weights) == 0 {
        0
    } else if rank(remainders(total, weights), i) < leftover(total, weights) {
        floor_share(total, weights, i) + 1
    } else {
        floor_share(total, weights, i)
    }
}

/// The allocation of `total` among entries weighted by `weights`.
pub open spec fn allocation(total: nat, weights: Seq<nat>) -> Seq<nat> {
    Seq::new(weights.len(), |i: int| share(total, weights, i))
}

/// A vector of `n` zeros.
fn zeros(n: usize) -> (v: Vec<u32>)
    ensures
        v.len() == n,
        forall|i: int| 0 <= i < n ==> v[i] == 0,
{
    let mut v: Vec<u32> = Vec::new();
    let mut i: usize = 0;
    while i < n
        invariant
            i <= n,
            v.len() == i,
            forall|k: int| 0 <= k < i ==> v[k] == 0,
        decreases n - i,
    {
        v.push(0);
        i += 1;
    }
    v
}

/// Distributes `total` among the entries of `parts` in proportion to their
/// values, by the largest remainder method: every entry first receives its
/// proportional share rounded down, and the units that are then left go, one
/// each, to the entries with the largest remainders (of two equal remainders
/// the later entry is served first). Where all parts are zero, nothing is
/// distributed.
pub fn lrm(total: u32, parts: &Vec<u32>) -> (gains: Vec<u32>)
    ensures
        nats(gains@) == allocation(total as nat, nats(parts@)),
        gains.len() == parts.len(),
        sum(nats(parts@)) > 0 ==> sum(nats(gains@)) == total,
        sum(nats(parts@)) == 0 ==> forall|i: int| 0 <= i < gains.len() ==> gains[i] == 0,
        sum(nats(parts@)) > 0 ==> forall|i: int|
            0 <= i < gains.len() ==> total * parts[i] - sum(nats(parts@)) < (#[trigger] gains[i])
                * sum(nats(parts@)) < total * parts[i] + sum(nats(parts@)),
{
    let n = parts.len();
    let ghost weights = nats(parts@);
    let ghost goal = total as nat;
    let mut norm: u128 = 0;
    let mut i: usize = 0;
    while i < n
        invariant
            i <= n,
            n == parts.len(),
            weights == nats(parts@),
            norm == sum(weights.take(i as int)),
            norm <= i * 0xFFFF_FFFF,
        decreases n - i,
    {
        proof {
            lemma_sum_take(weights, i as int);
        }
        norm = norm + parts[i] as u128;
        i += 1;
    }
    assert(weights.take(n as int) =~= weights);
    if norm == 0 {
        let gains = zeros(n);
        assert(nats(gains@) =~= allocation(goal, weights));
        return gains;
    }
    let mut floors: Vec<u32> = Vec::new();
    let mut rems: Vec<u128> = Vec::new();
    let mut given: u128 = 0;
    i = 0;
    while i < n
        invariant
            i <= n,
            n == parts.len(),
            weights == nats(parts@),
            goal == total,
            norm == sum(weights),
            norm > 0,
            floors.len() == i,
            rems.len() == i,
            forall|j: int| 0 <= j < i ==> floors[j] == floor_share(goal, weights, j),
            forall|j: int| 0 <= j < i ==> rems[j] == remainder(goal, weights, j),
            given == sum(floor_shares(goal, weights).take(i as int)),
            given <= i * 0xFFFF_FFFF,
        decreases n - i,
    {
        let part = parts[i] as u128;
        assert(total * part <= 0xFFFF_FFFF * 0xFFFF_FFFF) by (nonlinear_arith)
            requires
                0 <= total <= 0xFFFF_FFFF,
                0 <= part <= 0xFFFF_FFFF,
        ;
        let scaled: u128 = total as u128 * part;
        let floor = scaled / norm;
        let rem = scaled % norm;
        proof {
            lemma_sum_bounds(weights, i as int);
            lemma_sum_take(floor_shares(goal, weights), i as int);
            assert(weights[i as int] == part);
            assert(scaled / norm <= total) by (nonlinear_arith)
                requires
                    scaled == total * part,
                    0 <= part <= norm,
                    norm > 0,
                    0 <= total,
            ;
        }
        floors.push(floor as u32);
        rems.push(rem);
        given = given + floor;
        i += 1;
    }
    proof {
        assert(floor_shares(goal, weights).take(n as int) =~= floor_shares(goal, weights));
        lemma_leftover_bounds(goal, weights);
    }
    let left: u128 = total as u128 - given;
    let places = ranks(&rems);
    assert(keys_of(rems@) =~= remainders(goal, weights));
    let mut gains: Vec<u32> = Vec::new();
    i = 0;
    while i < n
        invariant
            i <= n,
            n == parts.len(),
            weights == nats(parts@),
            goal == total,
            sum(weights) > 0,
            floors.len() == n,
            rems.len() == n,
            forall|j: int| 0 <= j < n ==> floors[j] == floor_share(goal, weights, j),
            forall|j: int| 0 <= j < n ==> rems[j] == remainder(goal, weights, j),
            given == sum(floor_shares(goal, weights)),
            left == leftover(goal, weights),
            left == total - given,
            places.len() == n,
            forall|j: int| 0 <= j < n ==> places[j] == rank(remainders(goal, weights), j),
            gains.len() == i,
            forall|j: int| 0 <= j < i ==> gains[j] == share(goal, weights, j),
        decreases n - i,
    {
        let ahead = places[i];
        let gain = if (ahead as u128) < left {
            proof {
                lemma_sum_bounds(floor_shares(goal, weights), i as int);
            }
            floors[i] + 1
        } else {
            floors[i]
        };
        gains.push(gain);
        i += 1;
    }
    proof {
        assert(nats(gains@) =~= allocation(goal, weights));
        law_allocation_sums(goal, weights);
        assert forall|i: int| 0 <= i < gains.len() implies total * parts[i] - sum(weights) < (
        #[trigger] gains[i]) * sum(weights) < total * parts[i] + sum(weights) by {
            law_allocation_near_ideal(goal, weights, i);
            assert(nats(gains@)[i] == gains[i]);
            assert(weights[i] == parts[i]);
        }
    }
    gains
}

/// Nothing is lost and nothing is made up: where some weight is positive,
/// the allocation sums to `total`.
pub proof fn law_allocation_sums(total: nat, weights: Seq<nat>)
    requires
        sum(weights) > 0,
    ensures
        sum(allocation(total, weights)) == total,
{
    let n = weights.len() as int;
    let limit = leftover(total, weights);
    lemma_leftover_bounds(total, weights);
    lemma_allocation_prefix(total, weights, n);
    lemma_ranked_within_len(remainders(total, weights), limit);
    assert(served_among(total, weights, limit, n) =~= ranked_within(
        remainders(total, weights),
        limit,
    ));
    assert(allocation(total, weights).take(n) =~= allocation(total, weights));
    assert(floor_shares(total, weights).take(n) =~= floor_shares(total, weights));
}

/// Every entry receives its ideal share `total * weights[i] / sum(weights)`
/// rounded down or rounded up, so less than one unit away from it, and never
/// more than `total`.
pub proof fn law_allocation_near_ideal(total: nat, weights: Seq<nat>, i: int)
    requires
        sum(weights) > 0,
        0 <= i < weights.len(),
    ensures
        total * weights[i] - sum(weights) < allocation(total, weights)[i] * sum(weights),
        allocation(total, weights)[i] * sum(weights) < total * weights[i] + sum(weights),
        allocation(total, weights)[i] <= total,
{
    let s = sum(weights);
    let x = total * weights[i];
    let q = floor_share(total, weights, i);
    let rem = remainder(total, weights, i);
    let got = allocation(total, weights)[i];
    lemma_fundamental_div_mod(x as int, s as int);
    assert(x == s * q + rem);
    if rank(remainders(total, weights), i) < leftover(total, weights) {
        lemma_served_has_remainder(total, weights, i);
        assert(got == q + 1);
        assert(x - s < got * s && got * s < x + s) by (nonlinear_arith)
            requires
                x == s * q + rem,
                0 < rem < s,
                got == q + 1,
        ;
    } else {
        assert(got == q);
        assert(x - s < got * s && got * s < x + s) by (nonlinear_arith)
            requires
                x == s * q + rem,
                0 <= rem < s,
                got == q,
        ;
    }
    law_allocation_sums(total, weights);
    lemma_sum_bounds(allocation(total, weights), i);
}

/// Where every weight is zero, every entry receives nothing.
pub proof fn law_allocation_of_zero_weights(total: nat, weights: Seq<nat>)
    requires
        sum(weights) == 0,
    ensures
        allocation(total, weights).len() == weights.len(),
        forall|i: int| 0 <= i < weights.len() ==> allocation(total, weights)[i] == 0,
{
}

/// Appending an entry adds it to the sum.
pub proof fn lemma_sum_push(s: Seq<nat>, x: nat)
    ensures
        sum(s.push(x)) == sum(s) + x,
{
    assert(s.push(x).drop_last() =~= s);
}

/// The sum of a prefix grows by the entry that the prefix takes in.
pub proof fn lemma_sum_take(s: Seq<nat>, i: int)
    requires
        0 <= i < s.len(),
    ensures
        sum(s.take(i + 1)) == sum(s.take(i)) + s[i],
{
    assert(s.take(i + 1).drop_last() =~= s.take(i));
}

/// No entry exceeds the sum, and no prefix sums to more than the whole.
pub proof fn lemma_sum_bounds(s: Seq<nat>, i: int)
    requires
        0 <= i < s.len(),
    ensures
        s[i] <= sum(s),
        sum(s.take(i)) + s[i] <= sum(s),
    decreases s.len(),
{
    if i == s.len() - 1 {
        assert(s.take(i) =~= s.drop_last());
    } else {
        lemma_sum_bounds(s.drop_last(), i);
        assert(s.drop_last().take(i) =~= s.take(i));
    }
}

/// Where every entry of one sequence is the sum of the entries of two
/// others, so are the sums.
pub proof fn lemma_sum_pointwise(a: Seq<nat>, b: Seq<nat>, c: Seq<nat>)
    requires
        a.len() == b.len(),
        a.len() == c.len(),
        forall|i: int| 0 <= i < a.len() ==> #[trigger] a[i] == b[i] + c[i],
    ensures
        sum(a) == sum(b) + sum(c),
    decreases a.len(),
{
    if a.len() > 0 {
        lemma_sum_pointwise(a.drop_last(), b.drop_last(), c.drop_last());
    }
}

/// Replacing an entry changes the sum by as much as the entry changes.
pub proof fn lemma_sum_update(s: Seq<nat>, i: int, v: nat)
    requires
        0 <= i < s.len(),
    ensures
        sum(s.update(i, v)) + s[i] == sum(s) + v,
    decreases s.len(),
{
    if i == s.len() - 1 {
        assert(s.update(i, v).drop_last() =~= s.drop_last());
    } else {
        lemma_sum_update(s.drop_last(), i, v);
        assert(s.update(i, v).drop_last() =~= s.drop_last().update(i, v));
    }
}

/// The sum over what a filter keeps is the sum over all with nothing counted
/// for what the filter drops.
pub proof fn lemma_sum_filter<A>(s: Seq<A>, keep: spec_fn(A) -> bool, f: spec_fn(A) -> nat)
    ensures
        sum(s.filter(keep).map_values(f)) == sum(
            s.map_values(
                |x: A|
                    if keep(x) {
                        f(x)
                    } else {
                        0
                    },
            ),
        ),
    decreases s.len(),
{
    reveal(Seq::filter);
    let g = |x: A|
        if keep(x) {
            f(x)
        } else {
            0
        };
    if s.len() == 0 {
        assert(s.filter(keep).map_values(f) =~= Seq::<nat>::empty());
        assert(s.map_values(g) =~= Seq::<nat>::empty());
    } else {
        let rest = s.drop_last();
        lemma_sum_filter(rest, keep, f);
        assert(s.map_values(g).drop_last() =~= rest.map_values(g));
        if keep(s.last()) {
            assert(s.filter(keep).map_values(f) =~= rest.filter(keep).map_values(f).push(
                f(s.last()),
            ));
            lemma_sum_push(rest.filter(keep).map_values(f), f(s.last()));
        }
    }
}

/// Over any prefix of the entries, floor shares and remainders together
/// account for the prefix's part of `total * sum(weights)`.
proof fn lemma_division_identity(total: nat, weights: Seq<nat>, m: int)
    requires
        sum(weights) > 0,
        0 <= m <= weights.len(),
    ensures
        sum(floor_shares(total, weights).take(m)) * sum(weights) + sum(
            remainders(total, weights).take(m),
        ) == total * sum(weights.take(m)),
        sum(remainders(total, weights).take(m)) <= m * (sum(weights) - 1),
    decreases m,
{
    let s = sum(weights);
    if m == 0 {
        assert(floor_shares(total, weights).take(0) =~= Seq::<nat>::empty());
        assert(remainders(total, weights).take(0) =~= Seq::<nat>::empty());
        assert(weights.take(0) =~= Seq::<nat>::empty());
        assert(total * 0 == 0) by (nonlinear_arith);
        assert(0 * s == 0) by (nonlinear_arith);
        assert(0 * (s - 1) == 0) by (nonlinear_arith);
    } else {
        let k = m - 1;
        lemma_division_identity(total, weights, k);
        lemma_sum_take(floor_shares(total, weights), k);
        lemma_sum_take(remainders(total, weights), k);
        lemma_sum_take(weights, k);
        let a = sum(floor_shares(total, weights).take(k));
        let r = sum(remainders(total, weights).take(k));
        let w = sum(weights.take(k));
        let x = total * weights[k];
        let q = floor_share(total, weights, k);
        let rem = remainder(total, weights, k);
        lemma_fundamental_div_mod(x as int, s as int);
        assert(x == s * q + rem);
        assert(rem < s);
        assert((a + q) * s + (r + rem) == total * (w + weights[k])) by (nonlinear_arith)
            requires
                a * s + r == total * w,
                total * weights[k] == s * q + rem,
        ;
        assert(r + rem <= (k + 1) * (s - 1)) by (nonlinear_arith)
            requires
                r <= k * (s - 1),
                rem <= s - 1,
        ;
    }
}

/// Rounding down leaves fewer units than there are entries, and never
/// hands out more than `total`.
pub proof fn lemma_leftover_bounds(total: nat, weights: Seq<nat>)
    requires
        sum(weights) > 0,
    ensures
        0 <= leftover(total, weights) < weights.len(),
        leftover(total, weights) * sum(weights) == sum(remainders(total, weights)),
{
    let n = weights.len() as int;
    let s = sum(weights);
    lemma_division_identity(total, weights, n);
    assert(floor_shares(total, weights).take(n) =~= floor_shares(total, weights));
    assert(remainders(total, weights).take(n) =~= remainders(total, weights));
    assert(weights.take(n) =~= weights);
    let a = sum(floor_shares(total, weights));
    let r = sum(remainders(total, weights));
    assert(a * s + r == total * s);
    assert((total - a) * s == r) by (nonlinear_arith)
        requires
            a * s + r == total * s,
    ;
    assert(n > 0);
    let left = total - a;
    assert(0 <= left) by (nonlinear_arith)
        requires
            left * s == r,
            0 <= r,
            s > 0,
    ;
    assert(left < n) by (nonlinear_arith)
        requires
            left * s == r,
            r <= n * (s - 1),
            s > 0,
            n > 0,
    ;
}

/// The entries among the first `m` whose rank is below `limit`.
spec fn served_among(total: nat, weights: Seq<nat>, limit: int, m: int) -> Set<int> {
    Set::new(|i: int| 0 <= i < m && rank(remainders(total, weights), i) < limit)
}

/// Over any prefix, the allocation exceeds the floor shares by one unit for
/// each entry of the prefix that is served a leftover unit.
proof fn lemma_allocation_prefix(total: nat, weights: Seq<nat>, m: int)
    requires
        sum(weights) > 0,
        0 <= m <= weights.len(),
    ensures
        served_among(total, weights, leftover(total, weights), m).finite(),
        sum(allocation(total, weights).take(m)) == sum(floor_shares(total, weights).take(m))
            + served_among(total, weights, leftover(total, weights), m).len(),
    decreases m,
{
    let limit = leftover(total, weights);
    if m == 0 {
        assert(allocation(total, weights).take(0) =~= Seq::<nat>::empty());
        assert(floor_shares(total, weights).take(0) =~= Seq::<nat>::empty());
        assert(served_among(total, weights, limit, 0) =~= Set::<int>::empty());
    } else {
        let k = m - 1;
        lemma_allocation_prefix(total, weights, k);
        lemma_sum_take(allocation(total, weights), k);
        lemma_sum_take(floor_shares(total, weights), k);
        let before = served_among(total, weights, limit, k);
        let after = served_among(total, weights, limit, m);
        if rank(remainders(total, weights), k) < limit {
            assert(after =~= before.insert(k));
        } else {
            assert(after =~= before);
        }
    }
}

/// The entries among the first `m` whose remainder is positive.
spec fn fractional_among(total: nat, weights: Seq<nat>, m: int) -> Set<int> {
    Set::new(|j: int| 0 <= j < m && remainder(total, weights, j) > 0)
}

/// The remainders of a prefix sum to less than `sum(weights)` for each
/// positive one among them.
proof fn lemma_remainders_prefix(total: nat, weights: Seq<nat>, m: int)
    requires
        sum(weights) > 0,
        0 <= m <= weights.len(),
    ensures
        fractional_among(total, weights, m).finite(),
        sum(remainders(total, weights).take(m)) <= fractional_among(total, weights, m).len() * (
        sum(weights) - 1),
    decreases m,
{
    let s = sum(weights);
    if m == 0 {
        assert(remainders(total, weights).take(0) =~= Seq::<nat>::empty());
        assert(fractional_among(total, weights, 0) =~= Set::<int>::empty());
        assert(0 * (s - 1) == 0) by (nonlinear_arith);
    } else {
        let k = m - 1;
        lemma_remainders_prefix(total, weights, k);
        lemma_sum_take(remainders(total, weights), k);
        let before = fractional_among(total, weights, k);
        let after = fractional_among(total, weights, m);
        let r = sum(remainders(total, weights).take(k));
        let rem = remainder(total, weights, k);
        let c = before.len();
        lemma_fundamental_div_mod((total * weights[k]) as int, s as int);
        if rem > 0 {
            assert(after =~= before.insert(k));
            assert(r + rem <= (c + 1) * (s - 1)) by (nonlinear_arith)
                requires
                    r <= c * (s - 1),
                    rem <= s - 1,
            ;
        } else {
            assert(after =~= before);
        }
    }
}

/// An entry that is served a leftover unit has a positive remainder.
proof fn lemma_served_has_remainder(total: nat, weights: Seq<nat>, i: int)
    requires
        sum(weights) > 0,
        0 <= i < weights.len(),
        rank(remainders(total, weights), i) < leftover(total, weights),
    ensures
        remainder(total, weights, i) > 0,
{
    let n = weights.len() as int;
    let s = sum(weights);
    let left = leftover(total, weights);
    if remainder(total, weights, i) == 0 {
        let fractional = fractional_among(total, weights, n);
        let c = fractional.len();
        lemma_remainders_prefix(total, weights, n);
        lemma_leftover_bounds(total, weights);
        lemma_rank_below_len(remainders(total, weights), i);
        assert(remainders(total, weights).take(n) =~= remainders(total, weights));
        assert(fractional.subset_of(ahead_of(remainders(total, weights), i)));
        lemma_len_subset(fractional, ahead_of(remainders(total, weights), i));
        let r = sum(remainders(total, weights));
        assert(left <= c) by (nonlinear_arith)
            requires
                left * s == r,
                r <= c * (s - 1),
                s > 0,
                c >= 0,
        ;
    }
}

} // verus!
