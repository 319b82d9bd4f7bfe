//! The leaderboard of a server: who is worth the most.

use crate::bets::AccountStatus;
use crate::ranking::{keys_of, leaders, rank};
use vstd::prelude::*;

verus! {

/// The number of accounts that a leaderboard shows.
pub const LEADERS: usize = 10;

/// What an account counts for on the leaderboard: first what it is worth,
/// which is what it holds and what it has at stake, and among accounts of
/// one worth what it holds.
pub open spec fn leaderboard_key(account: AccountStatus) -> nat {
    ((account.balance + account.in_bet) * 0x1_0000_0000 + account.balance) as nat
}

/// What the accounts count for on the leaderboard, in their order.
pub open spec fn leaderboard_keys(accounts: Seq<AccountStatus>) -> Seq<nat> {
    Seq::new(accounts.len(), |i: int| leaderboard_key(accounts[i]))
}

/// The places in `accounts` of the ten accounts that lead, the first
/// first, or of all where there are fewer: the account that is worth the
/// most leads, of two of one worth the one that holds more, and of two that
/// are alike the later one.
pub fn leaderboard(accounts: &Vec<AccountStatus>) -> (order: Vec<usize>)
    ensures
        order.len() == if LEADERS <= accounts.len() {
            LEADERS
        } else {
            accounts.len()
        },
        forall|r: int|
            0 <= r < order.len() ==> order[r] < accounts.len() && rank(
                leaderboard_keys(accounts@),
                order[r] as int,
            ) == r,
{
    let mut keys: Vec<u128> = Vec::new();
    let mut i: usize = 0;
    while i < accounts.len()
        invariant
            i <= accounts.len(),
            keys.len() == i,
            forall|k: int| 0 <= k < i ==> keys[k] == leaderboard_key(accounts[k]),
        decreases accounts.len() - i,
    {
        let worth = accounts[i].balance as u128 + accounts[i].in_bet as u128;
        keys.push(worth * 0x1_0000_0000 + accounts[i].balance as u128);
        i += 1;
    }
    assert(keys_of(keys@) =~= leaderboard_keys(accounts@));
    leaders(&keys, LEADERS)
}

} // verus!
