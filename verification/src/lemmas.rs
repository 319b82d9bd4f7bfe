//! What follows from the constraints of the ledger: that a key finds one
//! row, and that every operation leaves the constraints in place.

use crate::model::{
    account_at, account_index, accounts_unique, balance_of, bet_at, bet_index, bet_row, bets_unique,
    credit, credit_all, has_account, has_bet, has_option, has_wager, held_by, marked,
    one_option_per_bet, option_at, option_index, options_refer, options_unique, owner, staked_on,
    stakes, tombstone_at, tombstones_refer, tombstones_unique, wager_at, wager_index, wagers_refer,
    wagers_unique, Account, Bet, BetOption, Credit, Ledger, Text, Tombstone, Wager,
};
use crate::utils::{lemma_sum_bounds, lemma_sum_push, sum};
use vstd::prelude::*;

verus! {

/// A key finds no account but its own.
pub proof fn lemma_account_found(accounts: Seq<Account>, i: int, server: Text, user: Text)
    requires
        accounts_unique(accounts),
        account_at(accounts, i, server, user),
    ensures
        has_account(accounts, server, user),
        account_index(accounts, server, user) == i,
        balance_of(accounts, server, user) == accounts[i].balance,
{
    let j = account_index(accounts, server, user);
    assert(account_at(accounts, j, server, user));
    if i < j {
        assert(!(accounts[i].server == accounts[j].server && accounts[i].user
            == accounts[j].user));
    } else if j < i {
        assert(!(accounts[j].server == accounts[i].server && accounts[j].user
            == accounts[i].user));
    }
}

/// A key finds no bet but its own.
pub proof fn lemma_bet_found(bets: Seq<Bet>, i: int, server: Text, bet: Text)
    requires
        bets_unique(bets),
        bet_at(bets, i, server, bet),
    ensures
        has_bet(bets, server, bet),
        bet_index(bets, server, bet) == i,
{
    let j = bet_index(bets, server, bet);
    assert(bet_at(bets, j, server, bet));
    if i < j {
        assert(!(bets[i].server == bets[j].server && bets[i].bet == bets[j].bet));
    } else if j < i {
        assert(!(bets[j].server == bets[i].server && bets[j].bet == bets[i].bet));
    }
}

/// A key finds no option but its own.
pub proof fn lemma_option_found(options: Seq<BetOption>, i: int, server: Text, option: Text)
    requires
        options_unique(options),
        option_at(options, i, server, option),
    ensures
        has_option(options, server, option),
        option_index(options, server, option) == i,
        owner(options, server, option) == options[i].bet,
{
    let j = option_index(options, server, option);
    assert(option_at(options, j, server, option));
    if i < j {
        assert(!(options[i].server == options[j].server && options[i].option
            == options[j].option));
    } else if j < i {
        assert(!(options[j].server == options[i].server && options[j].option
            == options[i].option));
    }
}

/// A key finds no wager but its own.
pub proof fn lemma_wager_found(wagers: Seq<Wager>, i: int, server: Text, option: Text, user: Text)
    requires
        wagers_unique(wagers),
        wager_at(wagers, i, server, option, user),
    ensures
        has_wager(wagers, server, option, user),
        wager_index(wagers, server, option, user) == i,
        staked_on(wagers, server, option, user) == wagers[i].amount,
{
    let j = wager_index(wagers, server, option, user);
    assert(wager_at(wagers, j, server, option, user));
    if i < j {
        assert(!(wagers[i].server == wagers[j].server && wagers[i].option == wagers[j].option
            && wagers[i].user == wagers[j].user));
    } else if j < i {
        assert(!(wagers[j].server == wagers[i].server && wagers[j].option == wagers[i].option
            && wagers[j].user == wagers[i].user));
    }
}

/// The two tables hold accounts of the same holders, row by row.
pub open spec fn same_holders(before: Seq<Account>, after: Seq<Account>) -> bool {
    &&& before.len() == after.len()
    &&& forall|i: int|
        0 <= i < before.len() ==> (#[trigger] after[i]).server == before[i].server
            && after[i].user == before[i].user
}

/// Where only balances change, the accounts stay as unique as they were
/// and the same holders have one.
pub proof fn lemma_same_holders(before: Seq<Account>, after: Seq<Account>)
    requires
        same_holders(before, after),
    ensures
        accounts_unique(before) ==> accounts_unique(after),
        forall|i: int, server: Text, user: Text|
            account_at(before, i, server, user) <==> #[trigger] account_at(
                after,
                i,
                server,
                user,
            ),
        forall|server: Text, user: Text|
            has_account(before, server, user) <==> #[trigger] has_account(after, server, user),
{
    if accounts_unique(before) {
        assert forall|i: int, j: int| 0 <= i < j < after.len() implies !(after[i].server
            == after[j].server && after[i].user == after[j].user) by {
            assert(!(before[i].server == before[j].server && before[i].user == before[j].user));
        }
    }
    assert forall|i: int, server: Text, user: Text|
        account_at(before, i, server, user) <==> #[trigger] account_at(
            after,
            i,
            server,
            user,
        ) by {
        if 0 <= i < before.len() {
            assert(after[i].server == before[i].server);
        }
    }
    assert forall|server: Text, user: Text|
        has_account(before, server, user) <==> #[trigger] has_account(after, server, user) by {
        if has_account(before, server, user) {
            let i = account_index(before, server, user);
            assert(account_at(after, i, server, user));
        }
        if has_account(after, server, user) {
            let i = account_index(after, server, user);
            assert(account_at(before, i, server, user));
        }
    }
}

/// Where only balances change, the ledger keeps its constraints.
pub proof fn lemma_rebalanced(before: Ledger, after: Ledger)
    requires
        before.wf(),
        same_holders(before.accounts, after.accounts),
        after.bets == before.bets,
        after.options == before.options,
        after.wagers == before.wagers,
        after.tombstones == before.tombstones,
    ensures
        after.wf(),
{
    lemma_same_holders(before.accounts, after.accounts);
    assert forall|i: int| 0 <= i < after.wagers.len() implies has_account(
        after.accounts,
        (#[trigger] after.wagers[i]).server,
        after.wagers[i].user,
    ) by {
        assert(has_account(before.accounts, before.wagers[i].server, before.wagers[i].user));
    }
}

/// A new account under a free key leaves the constraints in place.
pub proof fn lemma_create_account_wf(before: Ledger, server: Text, user: Text, amount: nat)
    requires
        before.wf(),
        !before.has_account(server, user),
    ensures
        before.create_account(server, user, amount).wf(),
{
    let after = before.create_account(server, user, amount);
    assert forall|i: int, j: int| 0 <= i < j < after.accounts.len() implies !(
    after.accounts[i].server == after.accounts[j].server && after.accounts[i].user
        == after.accounts[j].user) by {
        if j == before.accounts.len() {
            assert(!account_at(before.accounts, i, server, user));
        } else {
            assert(!(before.accounts[i].server == before.accounts[j].server
                && before.accounts[i].user == before.accounts[j].user));
        }
    }
    assert forall|i: int| 0 <= i < after.wagers.len() implies has_account(
        after.accounts,
        (#[trigger] after.wagers[i]).server,
        after.wagers[i].user,
    ) by {
        let w = before.wagers[i];
        assert(has_account(before.accounts, w.server, w.user));
        let k = account_index(before.accounts, w.server, w.user);
        assert(account_at(after.accounts, k, w.server, w.user));
    }
}


/// Taking one more row into a filtered and mapped table adds the row's image
/// if the row is kept, and nothing if it is not.
pub proof fn lemma_filter_map_step<A, B>(
    s: Seq<A>,
    keep: spec_fn(A) -> bool,
    f: spec_fn(A) -> B,
    i: int,
)
    requires
        0 <= i < s.len(),
    ensures
        s.take(i + 1).filter(keep) == if keep(s[i]) {
            s.take(i).filter(keep).push(s[i])
        } else {
            s.take(i).filter(keep)
        },
        s.take(i + 1).filter(keep).map_values(f) == if keep(s[i]) {
            s.take(i).filter(keep).map_values(f).push(f(s[i]))
        } else {
            s.take(i).filter(keep).map_values(f)
        },
{
    reveal(Seq::filter);
    assert(s.take(i + 1).drop_last() =~= s.take(i));
    if keep(s[i]) {
        assert(s.take(i).filter(keep).push(s[i]).map_values(f) =~= s.take(i).filter(
            keep,
        ).map_values(f).push(f(s[i])));
    }
}

/// Taking one more row into a filtered table adds the row if it is kept.
pub proof fn lemma_filter_step<A>(s: Seq<A>, keep: spec_fn(A) -> bool, i: int)
    requires
        0 <= i < s.len(),
    ensures
        s.take(i + 1).filter(keep) == if keep(s[i]) {
            s.take(i).filter(keep).push(s[i])
        } else {
            s.take(i).filter(keep)
        },
{
    reveal(Seq::filter);
    assert(s.take(i + 1).drop_last() =~= s.take(i));
}

/// A table of which no row is kept filters to nothing.
pub proof fn lemma_filter_none<A>(s: Seq<A>, keep: spec_fn(A) -> bool)
    ensures
        s.take(0).filter(keep) == Seq::<A>::empty(),
        s.take(s.len() as int) == s,
{
    reveal(Seq::filter);
    assert(s.take(0) =~= Seq::<A>::empty());
    assert(s.take(s.len() as int) =~= s);
}

/// A row that is kept is found in the filtered table.
pub proof fn lemma_filter_keeps<A>(s: Seq<A>, keep: spec_fn(A) -> bool, i: int)
    requires
        0 <= i < s.len(),
        keep(s[i]),
    ensures
        s.filter(keep).len() > 0,
{
    s.lemma_filter_contains(keep, i);
}

/// The two tables hold wagers of the same users on the same options, row by
/// row.
pub open spec fn same_players(before: Seq<Wager>, after: Seq<Wager>) -> bool {
    &&& before.len() == after.len()
    &&& forall|i: int|
        0 <= i < before.len() ==> (#[trigger] after[i]).server == before[i].server
            && after[i].option == before[i].option && after[i].user == before[i].user
}

/// Where only amounts change, the wagers stay as unique as they were, the
/// same users hold one on the same options, and nobody comes to be on two
/// sides of a bet.
pub proof fn lemma_same_players(options: Seq<BetOption>, before: Seq<Wager>, after: Seq<Wager>)
    requires
        same_players(before, after),
    ensures
        wagers_unique(before) ==> wagers_unique(after),
        one_option_per_bet(options, before) ==> one_option_per_bet(options, after),
        forall|server: Text, option: Text, user: Text|
            has_wager(before, server, option, user) <==> #[trigger] has_wager(
                after,
                server,
                option,
                user,
            ),
{
    if wagers_unique(before) {
        assert forall|i: int, j: int| 0 <= i < j < after.len() implies !(after[i].server
            == after[j].server && after[i].option == after[j].option && after[i].user
            == after[j].user) by {
            assert(!(before[i].server == before[j].server && before[i].option
                == before[j].option && before[i].user == before[j].user));
        }
    }
    if one_option_per_bet(options, before) {
        assert forall|i: int, j: int|
            0 <= i < after.len() && 0 <= j < after.len() && after[i].server == after[j].server
                && after[i].user == after[j].user && owner(options, after[i].server, after[i].option)
                == owner(options, after[j].server, after[j].option) implies after[i].option
            == after[j].option by {
            assert(before[i].option == before[j].option);
        }
    }
    assert forall|server: Text, option: Text, user: Text|
        has_wager(before, server, option, user) <==> #[trigger] has_wager(
            after,
            server,
            option,
            user,
        ) by {
        if has_wager(before, server, option, user) {
            let i = wager_index(before, server, option, user);
            assert(after[i].server == before[i].server);
            assert(wager_at(after, i, server, option, user));
        }
        if has_wager(after, server, option, user) {
            let i = wager_index(after, server, option, user);
            assert(after[i].server == before[i].server);
            assert(wager_at(before, i, server, option, user));
        }
    }
}

/// A stake by a user with an account, on an option that exists, who is on
/// no other option of the bet, leaves the constraints in place.
pub proof fn lemma_stake_wf(before: Ledger, server: Text, option: Text, user: Text, amount: nat)
    requires
        before.wf(),
        before.has_option(server, option),
        before.has_account(server, user),
        before.held_elsewhere(server, option, user).len() == 0,
        amount > 0,
    ensures
        before.stake(server, option, user, amount).wf(),
{
    let after = before.stake(server, option, user, amount);
    lemma_same_holders(before.accounts, after.accounts);
    if before.has_wager(server, option, user) {
        lemma_same_players(before.options, before.wagers, after.wagers);
        assert forall|i: int| 0 <= i < after.wagers.len() implies {
            &&& has_option(
                after.options,
                (#[trigger] after.wagers[i]).server,
                after.wagers[i].option,
            )
            &&& has_account(after.accounts, after.wagers[i].server, after.wagers[i].user)
            &&& after.wagers[i].amount > 0
        } by {
            let w = before.wagers[i];
            assert(has_option(before.options, w.server, w.option));
            assert(has_account(before.accounts, w.server, w.user));
        }
    } else {
        let n = before.wagers.len() as int;
        assert forall|i: int, j: int| 0 <= i < j < after.wagers.len() implies !(
        after.wagers[i].server == after.wagers[j].server && after.wagers[i].option
            == after.wagers[j].option && after.wagers[i].user == after.wagers[j].user) by {
            if j == n {
                assert(!wager_at(before.wagers, i, server, option, user));
            } else {
                assert(!(before.wagers[i].server == before.wagers[j].server
                    && before.wagers[i].option == before.wagers[j].option
                    && before.wagers[i].user == before.wagers[j].user));
            }
        }
        assert forall|i: int| 0 <= i < after.wagers.len() implies {
            &&& has_option(
                after.options,
                (#[trigger] after.wagers[i]).server,
                after.wagers[i].option,
            )
            &&& has_account(after.accounts, after.wagers[i].server, after.wagers[i].user)
            &&& after.wagers[i].amount > 0
        } by {
            if i < n {
                let w = before.wagers[i];
                assert(has_option(before.options, w.server, w.option));
                assert(has_account(before.accounts, w.server, w.user));
            }
        }
        assert forall|i: int, j: int|
            0 <= i < after.wagers.len() && 0 <= j < after.wagers.len() && after.wagers[i].server
                == after.wagers[j].server && after.wagers[i].user == after.wagers[j].user && owner(
                after.options,
                after.wagers[i].server,
                after.wagers[i].option,
            ) == owner(after.options, after.wagers[j].server, after.wagers[j].option)
            implies after.wagers[i].option == after.wagers[j].option by {
            if i < n && j < n {
                assert(before.wagers[i].option == before.wagers[j].option);
            } else if i < n {
                lemma_not_held(before, server, option, user, i);
            } else if j < n {
                lemma_not_held(before, server, option, user, j);
            }
        }
    }
}

/// Where a user is on no other option of the bet of `option`, every wager
/// of the user on that bet is on `option`.
proof fn lemma_not_held(before: Ledger, server: Text, option: Text, user: Text, i: int)
    requires
        before.wf(),
        before.held_elsewhere(server, option, user).len() == 0,
        0 <= i < before.wagers.len(),
        before.wagers[i].server == server,
        before.wagers[i].user == user,
        owner(before.options, server, before.wagers[i].option) == owner(
            before.options,
            server,
            option,
        ),
    ensures
        before.wagers[i].option == option,
{
    let w = before.wagers[i];
    if w.option != option {
        assert(has_option(before.options, w.server, w.option));
        let k = option_index(before.options, server, w.option);
        assert(option_at(before.options, k, server, w.option));
        let o = before.options[k];
        assert(wager_at(before.wagers, i, server, o.option, user));
        let options = before.options;
        let wagers = before.wagers;
        let keep = |o: BetOption| held_by(options, wagers, o, server, option, user);
        assert(keep(o));
        lemma_filter_keeps(before.options, keep, k);
    }
}


/// Paying one more credit is paying it after the others.
pub proof fn lemma_credit_all_step(
    accounts: Seq<Account>,
    server: Text,
    credits: Seq<Credit>,
    k: int,
)
    requires
        0 <= k < credits.len(),
    ensures
        credit_all(accounts, server, credits.take(k + 1)) == credit(
            credit_all(accounts, server, credits.take(k)),
            server,
            credits[k].user,
            credits[k].amount,
        ),
        credit_all(accounts, server, credits.take(0)) == accounts,
        credits.take(credits.len() as int) == credits,
{
    assert(credits.take(k + 1).drop_last() =~= credits.take(k));
    assert(credits.take(0) =~= Seq::<Credit>::empty());
    assert(credits.take(credits.len() as int) =~= credits);
}

/// Credits change no holder and lower no balance.
pub proof fn lemma_credit_all_holders(accounts: Seq<Account>, server: Text, credits: Seq<Credit>)
    ensures
        same_holders(accounts, credit_all(accounts, server, credits)),
        forall|i: int|
            0 <= i < accounts.len() ==> accounts[i].balance <= (#[trigger] credit_all(
                accounts,
                server,
                credits,
            )[i]).balance,
    decreases credits.len(),
{
    if credits.len() > 0 {
        lemma_credit_all_holders(accounts, server, credits.drop_last());
    }
}

/// What an account holds after some of the credits, it holds at least after
/// all of them.
pub proof fn lemma_credit_all_grows(
    accounts: Seq<Account>,
    server: Text,
    credits: Seq<Credit>,
    k: int,
    i: int,
)
    requires
        0 <= k <= credits.len(),
        0 <= i < accounts.len(),
    ensures
        credit_all(accounts, server, credits.take(k)).len() == accounts.len(),
        credit_all(accounts, server, credits).len() == accounts.len(),
        credit_all(accounts, server, credits.take(k))[i].balance <= credit_all(
            accounts,
            server,
            credits,
        )[i].balance,
    decreases credits.len(),
{
    lemma_credit_all_holders(accounts, server, credits);
    lemma_credit_all_holders(accounts, server, credits.take(k));
    if k == credits.len() {
        assert(credits.take(k) =~= credits);
    } else {
        lemma_credit_all_grows(accounts, server, credits.drop_last(), k, i);
        lemma_credit_all_holders(accounts, server, credits.drop_last());
        assert(credits.drop_last().take(k) =~= credits.take(k));
    }
}

/// Paying credits and marking a bet that exists and is not marked leaves
/// the constraints in place.
pub proof fn lemma_tear_down_wf(before: Ledger, server: Text, bet: Text, credits: Seq<Credit>)
    requires
        before.wf(),
        before.is_live(server, bet),
    ensures
        before.tear_down(server, bet, credits).wf(),
{
    let after = before.tear_down(server, bet, credits);
    let paid = Ledger { accounts: after.accounts, ..before };
    lemma_credit_all_holders(before.accounts, server, credits);
    lemma_rebalanced(before, paid);
    let n = before.tombstones.len() as int;
    assert forall|i: int, j: int| 0 <= i < j < after.tombstones.len() implies !(
    after.tombstones[i].server == after.tombstones[j].server && after.tombstones[i].bet
        == after.tombstones[j].bet) by {
        if j == n {
            assert(!tombstone_at(before.tombstones, i, server, bet));
        } else {
            assert(!(before.tombstones[i].server == before.tombstones[j].server
                && before.tombstones[i].bet == before.tombstones[j].bet));
        }
    }
    assert forall|i: int| 0 <= i < after.tombstones.len() implies has_bet(
        after.bets,
        (#[trigger] after.tombstones[i]).server,
        after.tombstones[i].bet,
    ) by {
        if i < n {
            assert(has_bet(before.bets, before.tombstones[i].server, before.tombstones[i].bet));
        }
    }
}

/// Taking one more wager into a sum of stakes adds what it holds if it is
/// chosen, and the sum over some of the wagers is no more than over all.
pub proof fn lemma_stakes_step(wagers: Seq<Wager>, chosen: spec_fn(Wager) -> bool, i: int)
    requires
        0 <= i < wagers.len(),
    ensures
        stakes(wagers.take(i + 1), chosen) == stakes(wagers.take(i), chosen) + if chosen(
            wagers[i],
        ) {
            wagers[i].amount
        } else {
            0
        },
        stakes(wagers.take(i + 1), chosen) <= stakes(wagers, chosen),
        stakes(wagers.take(0), chosen) == 0,
        wagers.take(wagers.len() as int) == wagers,
{
    let held = |w: Wager|
        if chosen(w) {
            w.amount
        } else {
            0
        };
    let amounts = wagers.map_values(held);
    assert(wagers.take(i + 1).map_values(held) =~= wagers.take(i).map_values(held).push(
        held(wagers[i]),
    ));
    lemma_sum_push(wagers.take(i).map_values(held), held(wagers[i]));
    assert(wagers.take(i).map_values(held) =~= amounts.take(i));
    lemma_sum_bounds(amounts, i);
    assert(wagers.take(0).map_values(held) =~= Seq::<nat>::empty());
    assert(wagers.take(wagers.len() as int) =~= wagers);
}


/// Every wager that a filter keeps is by a user who has an account in the
/// wager's server, and is one of the wagers of the table.
pub proof fn lemma_filtered_have_accounts(ledger: Ledger, keep: spec_fn(Wager) -> bool, k: int)
    requires
        ledger.wf(),
        0 <= k < ledger.wagers.filter(keep).len(),
    ensures
        keep(ledger.wagers.filter(keep)[k]),
        ledger.wagers.contains(ledger.wagers.filter(keep)[k]),
        has_account(
            ledger.accounts,
            ledger.wagers.filter(keep)[k].server,
            ledger.wagers.filter(keep)[k].user,
        ),
{
    let kept = ledger.wagers.filter(keep);
    ledger.wagers.lemma_filter_pred(keep, k);
    assert(kept.contains(kept[k]));
    ledger.wagers.lemma_filter_contains_rev(keep, kept[k]);
    let i = choose|i: int| 0 <= i < ledger.wagers.len() && ledger.wagers[i] == kept[k];
    assert(has_account(ledger.accounts, ledger.wagers[i].server, ledger.wagers[i].user));
}


/// Locking a bet leaves the constraints in place.
pub proof fn lemma_lock_bet_wf(before: Ledger, server: Text, bet: Text)
    requires
        before.wf(),
    ensures
        before.lock_bet(server, bet).wf(),
{
    let after = before.lock_bet(server, bet);
    assert forall|i: int, j: int| 0 <= i < j < after.bets.len() implies !(after.bets[i].server
        == after.bets[j].server && after.bets[i].bet == after.bets[j].bet) by {
        assert(!(before.bets[i].server == before.bets[j].server && before.bets[i].bet
            == before.bets[j].bet));
    }
    assert forall|s: Text, b: Text| has_bet(before.bets, s, b) implies #[trigger] has_bet(
        after.bets,
        s,
        b,
    ) by {
        let i = bet_index(before.bets, s, b);
        assert(bet_at(before.bets, i, s, b));
        assert(bet_at(after.bets, i, s, b));
    }
    assert forall|i: int| 0 <= i < after.options.len() implies has_bet(
        after.bets,
        (#[trigger] after.options[i]).server,
        after.options[i].bet,
    ) by {
        assert(has_bet(before.bets, before.options[i].server, before.options[i].bet));
    }
    assert forall|i: int| 0 <= i < after.tombstones.len() implies has_bet(
        after.bets,
        (#[trigger] after.tombstones[i]).server,
        after.tombstones[i].bet,
    ) by {
        assert(has_bet(before.bets, before.tombstones[i].server, before.tombstones[i].bet));
    }
}


/// A new bet under a free key, with options under free keys that differ
/// from one another, leaves the constraints in place.
pub proof fn lemma_create_bet_wf(
    before: Ledger,
    server: Text,
    bet: Text,
    desc: Text,
    options: Seq<Text>,
    options_desc: Seq<Text>,
)
    requires
        before.wf(),
        !before.bet_collides(server, bet, options),
    ensures
        before.create_bet(server, bet, desc, options, options_desc).wf(),
{
    let after = before.create_bet(server, bet, desc, options, options_desc);
    let nb = before.bets.len() as int;
    let no = before.options.len() as int;
    assert forall|i: int, j: int| 0 <= i < j < after.bets.len() implies !(after.bets[i].server
        == after.bets[j].server && after.bets[i].bet == after.bets[j].bet) by {
        if j == nb {
            assert(!bet_at(before.bets, i, server, bet));
        } else {
            assert(!(before.bets[i].server == before.bets[j].server && before.bets[i].bet
                == before.bets[j].bet));
        }
    }
    assert forall|i: int, j: int| 0 <= i < j < after.options.len() implies !(
    after.options[i].server == after.options[j].server && after.options[i].option
        == after.options[j].option) by {
        if j < no {
            assert(!(before.options[i].server == before.options[j].server
                && before.options[i].option == before.options[j].option));
        } else if i < no {
            assert(!has_option(before.options, server, options[j - no]));
            assert(!option_at(before.options, i, server, options[j - no]));
        } else {
            assert(options[i - no] != options[j - no]);
        }
    }
    assert forall|s: Text, b: Text| has_bet(before.bets, s, b) implies #[trigger] has_bet(
        after.bets,
        s,
        b,
    ) by {
        let i = bet_index(before.bets, s, b);
        assert(bet_at(after.bets, i, s, b));
    }
    assert(bet_at(after.bets, nb, server, bet));
    assert forall|i: int| 0 <= i < after.options.len() implies has_bet(
        after.bets,
        (#[trigger] after.options[i]).server,
        after.options[i].bet,
    ) by {
        if i < no {
            assert(has_bet(before.bets, before.options[i].server, before.options[i].bet));
        }
    }
    assert forall|i: int| 0 <= i < after.tombstones.len() implies has_bet(
        after.bets,
        (#[trigger] after.tombstones[i]).server,
        after.tombstones[i].bet,
    ) by {
        assert(has_bet(before.bets, before.tombstones[i].server, before.tombstones[i].bet));
    }
    assert forall|i: int| 0 <= i < after.wagers.len() implies {
        &&& has_option(after.options, (#[trigger] after.wagers[i]).server, after.wagers[i].option)
        &&& owner(after.options, after.wagers[i].server, after.wagers[i].option) == owner(
            before.options,
            after.wagers[i].server,
            after.wagers[i].option,
        )
    } by {
        let w = before.wagers[i];
        assert(has_option(before.options, w.server, w.option));
        let k = option_index(before.options, w.server, w.option);
        assert(option_at(after.options, k, w.server, w.option));
        lemma_option_found(before.options, k, w.server, w.option);
        lemma_option_found(after.options, k, w.server, w.option);
    }
    assert forall|i: int| 0 <= i < after.wagers.len() implies {
        &&& has_option(after.options, (#[trigger] after.wagers[i]).server, after.wagers[i].option)
        &&& has_account(after.accounts, after.wagers[i].server, after.wagers[i].user)
        &&& after.wagers[i].amount > 0
    } by {
        let w = before.wagers[i];
        assert(has_account(before.accounts, w.server, w.user));
    }
    assert forall|i: int, j: int|
        0 <= i < after.wagers.len() && 0 <= j < after.wagers.len() && after.wagers[i].server
            == after.wagers[j].server && after.wagers[i].user == after.wagers[j].user && owner(
            after.options,
            after.wagers[i].server,
            after.wagers[i].option,
        ) == owner(after.options, after.wagers[j].server, after.wagers[j].option)
        implies after.wagers[i].option == after.wagers[j].option by {
        assert(before.wagers[i].option == before.wagers[j].option);
    }
}


/// Any two rows of the table are apart.
pub open spec fn pairwise<A>(s: Seq<A>, apart: spec_fn(A, A) -> bool) -> bool {
    forall|i: int, j: int| 0 <= i < j < s.len() ==> apart(#[trigger] s[i], #[trigger] s[j])
}

/// Rows that were apart in a table are apart in what a filter keeps of it.
pub proof fn lemma_filter_pairwise<A>(
    s: Seq<A>,
    keep: spec_fn(A) -> bool,
    apart: spec_fn(A, A) -> bool,
)
    requires
        pairwise(s, apart),
    ensures
        pairwise(s.filter(keep), apart),
    decreases s.len(),
{
    reveal(Seq::filter);
    if s.len() > 0 {
        let rest = s.drop_last();
        assert forall|i: int, j: int| 0 <= i < j < rest.len() implies apart(
            #[trigger] rest[i],
            #[trigger] rest[j],
        ) by {
            assert(apart(s[i], s[j]));
        }
        lemma_filter_pairwise(rest, keep, apart);
        let kept = rest.filter(keep);
        if keep(s.last()) {
            assert forall|i: int, j: int| 0 <= i < j < kept.push(s.last()).len() implies apart(
                #[trigger] kept.push(s.last())[i],
                #[trigger] kept.push(s.last())[j],
            ) by {
                if j == kept.len() {
                    assert(kept.contains(kept[i]));
                    rest.lemma_filter_contains_rev(keep, kept[i]);
                    let a = choose|a: int| 0 <= a < rest.len() && rest[a] == kept[i];
                    assert(apart(s[a], s[s.len() - 1]));
                } else {
                    assert(apart(kept[i], kept[j]));
                }
            }
        }
    }
}

/// Where a kept row of the table stands in what a filter keeps.
pub proof fn lemma_filter_has<A>(s: Seq<A>, keep: spec_fn(A) -> bool, i: int) -> (k: int)
    requires
        0 <= i < s.len(),
        keep(s[i]),
    ensures
        0 <= k < s.filter(keep).len(),
        s.filter(keep)[k] == s[i],
{
    s.lemma_filter_contains(keep, i);
    choose|k: int| 0 <= k < s.filter(keep).len() && s.filter(keep)[k] == s[i]
}

/// Where a row of what a filter keeps stands in the table.
pub proof fn lemma_filter_origin<A>(s: Seq<A>, keep: spec_fn(A) -> bool, k: int) -> (i: int)
    requires
        0 <= k < s.filter(keep).len(),
    ensures
        0 <= i < s.len(),
        s[i] == s.filter(keep)[k],
        keep(s[i]),
{
    let kept = s.filter(keep);
    s.lemma_filter_pred(keep, k);
    assert(kept.contains(kept[k]));
    s.lemma_filter_contains_rev(keep, kept[k]);
    choose|i: int| 0 <= i < s.len() && s[i] == kept[k]
}

/// The bets that a filter keeps are as unique as the bets were.
proof fn lemma_filter_bets(bets: Seq<Bet>, keep: spec_fn(Bet) -> bool)
    requires
        bets_unique(bets),
    ensures
        bets_unique(bets.filter(keep)),
{
    let apart = |a: Bet, b: Bet| !(a.server == b.server && a.bet == b.bet);
    assert(pairwise(bets, apart));
    lemma_filter_pairwise(bets, keep, apart);
    let kept = bets.filter(keep);
    assert forall|i: int, j: int| 0 <= i < j < kept.len() implies !(kept[i].server
        == kept[j].server && kept[i].bet == kept[j].bet) by {
        assert(apart(kept[i], kept[j]));
    }
}

/// The options that a filter keeps are as unique as the options were.
proof fn lemma_filter_options(options: Seq<BetOption>, keep: spec_fn(BetOption) -> bool)
    requires
        options_unique(options),
    ensures
        options_unique(options.filter(keep)),
{
    let apart = |a: BetOption, b: BetOption| !(a.server == b.server && a.option == b.option);
    assert(pairwise(options, apart));
    lemma_filter_pairwise(options, keep, apart);
    let kept = options.filter(keep);
    assert forall|i: int, j: int| 0 <= i < j < kept.len() implies !(kept[i].server
        == kept[j].server && kept[i].option == kept[j].option) by {
        assert(apart(kept[i], kept[j]));
    }
}

/// The tombstones that a filter keeps are as unique as the tombstones were.
proof fn lemma_filter_tombstones(tombstones: Seq<Tombstone>, keep: spec_fn(Tombstone) -> bool)
    requires
        tombstones_unique(tombstones),
    ensures
        tombstones_unique(tombstones.filter(keep)),
{
    let apart = |a: Tombstone, b: Tombstone| !(a.server == b.server && a.bet == b.bet);
    assert(pairwise(tombstones, apart));
    lemma_filter_pairwise(tombstones, keep, apart);
    let kept = tombstones.filter(keep);
    assert forall|i: int, j: int| 0 <= i < j < kept.len() implies !(kept[i].server
        == kept[j].server && kept[i].bet == kept[j].bet) by {
        assert(apart(kept[i], kept[j]));
    }
}

/// The wagers that a filter keeps are as unique as the wagers were, and
/// none of their users is on two sides of a bet.
proof fn lemma_filter_wagers(
    options: Seq<BetOption>,
    wagers: Seq<Wager>,
    keep: spec_fn(Wager) -> bool,
)
    requires
        wagers_unique(wagers),
        one_option_per_bet(options, wagers),
    ensures
        wagers_unique(wagers.filter(keep)),
        one_option_per_bet(options, wagers.filter(keep)),
{
    let apart = |a: Wager, b: Wager|
        !(a.server == b.server && a.option == b.option && a.user == b.user) && (a.server
            == b.server && a.user == b.user && owner(options, a.server, a.option) == owner(
            options,
            b.server,
            b.option,
        ) ==> a.option == b.option);
    assert(pairwise(wagers, apart));
    lemma_filter_pairwise(wagers, keep, apart);
    let kept = wagers.filter(keep);
    assert forall|i: int, j: int| 0 <= i < j < kept.len() implies !(kept[i].server
        == kept[j].server && kept[i].option == kept[j].option && kept[i].user
        == kept[j].user) by {
        assert(apart(kept[i], kept[j]));
    }
    assert forall|i: int, j: int|
        0 <= i < kept.len() && 0 <= j < kept.len() && kept[i].server == kept[j].server
            && kept[i].user == kept[j].user && owner(options, kept[i].server, kept[i].option)
            == owner(options, kept[j].server, kept[j].option) implies kept[i].option
        == kept[j].option by {
        if i < j {
            assert(apart(kept[i], kept[j]));
        } else if j < i {
            assert(apart(kept[j], kept[i]));
        }
    }
}

/// Two filters that keep the same rows of a table make the same of it.
pub proof fn lemma_filter_same<A>(s: Seq<A>, keep: spec_fn(A) -> bool, other: spec_fn(A) -> bool)
    requires
        forall|i: int| 0 <= i < s.len() ==> keep(#[trigger] s[i]) == other(s[i]),
    ensures
        s.filter(keep) == s.filter(other),
    decreases s.len(),
{
    reveal(Seq::filter);
    if s.len() > 0 {
        let rest = s.drop_last();
        assert forall|i: int| 0 <= i < rest.len() implies keep(#[trigger] rest[i]) == other(
            rest[i],
        ) by {
            assert(rest[i] == s[i]);
        }
        lemma_filter_same(rest, keep, other);
        assert(keep(s[s.len() - 1]) == other(s[s.len() - 1]));
    }
}

/// A bet that is not taken away is still there after others have been.
proof fn lemma_without_keeps_bet(before: Ledger, gone: spec_fn(Bet) -> bool, s: Text, b: Text)
    requires
        before.wf(),
        has_bet(before.bets, s, b),
        !gone(bet_row(before.bets, s, b)),
    ensures
        has_bet(before.without(gone).bets, s, b),
        bet_row(before.without(gone).bets, s, b) == bet_row(before.bets, s, b),
{
    let after = before.without(gone);
    let keep = |b: Bet| !gone(b);
    let i = bet_index(before.bets, s, b);
    assert(bet_at(before.bets, i, s, b));
    let k = lemma_filter_has(before.bets, keep, i);
    assert(bet_at(after.bets, k, s, b));
    lemma_filter_bets(before.bets, keep);
    lemma_bet_found(after.bets, k, s, b);
}

/// An option of a bet that is not taken away is still there after others
/// have been, and belongs to the bet to which it belonged.
proof fn lemma_without_keeps_option(before: Ledger, gone: spec_fn(Bet) -> bool, s: Text, o: Text)
    requires
        before.wf(),
        has_option(before.options, s, o),
        !gone(bet_row(before.bets, s, owner(before.options, s, o))),
    ensures
        has_option(before.without(gone).options, s, o),
        owner(before.without(gone).options, s, o) == owner(before.options, s, o),
{
    let after = before.without(gone);
    let bets = before.bets;
    let keep = |o: BetOption| !gone(bet_row(bets, o.server, o.bet));
    let i = option_index(before.options, s, o);
    assert(option_at(before.options, i, s, o));
    lemma_option_found(before.options, i, s, o);
    let k = lemma_filter_has(before.options, keep, i);
    assert(option_at(after.options, k, s, o));
    lemma_filter_options(before.options, keep);
    lemma_option_found(after.options, k, s, o);
}

/// After bets have been taken away with all that hung on them, every row
/// refers to rows that exist.
proof fn lemma_without_refers(before: Ledger, gone: spec_fn(Bet) -> bool)
    requires
        before.wf(),
    ensures
        options_refer(before.without(gone).bets, before.without(gone).options),
        tombstones_refer(before.without(gone).bets, before.without(gone).tombstones),
        wagers_refer(
            before.without(gone).accounts,
            before.without(gone).options,
            before.without(gone).wagers,
        ),
        forall|k: int|
            0 <= k < before.without(gone).wagers.len() ==> owner(
                before.without(gone).options,
                (#[trigger] before.without(gone).wagers[k]).server,
                before.without(gone).wagers[k].option,
            ) == owner(
                before.options,
                before.without(gone).wagers[k].server,
                before.without(gone).wagers[k].option,
            ),
{
    let after = before.without(gone);
    let bets = before.bets;
    let options = before.options;
    assert forall|k: int| 0 <= k < after.options.len() implies has_bet(
        after.bets,
        (#[trigger] after.options[k]).server,
        after.options[k].bet,
    ) by {
        let i = lemma_filter_origin(
            before.options,
            |o: BetOption| !gone(bet_row(bets, o.server, o.bet)),
            k,
        );
        assert(has_bet(before.bets, before.options[i].server, before.options[i].bet));
        lemma_without_keeps_bet(before, gone, before.options[i].server, before.options[i].bet);
    }
    assert forall|k: int| 0 <= k < after.tombstones.len() implies has_bet(
        after.bets,
        (#[trigger] after.tombstones[k]).server,
        after.tombstones[k].bet,
    ) by {
        let i = lemma_filter_origin(
            before.tombstones,
            |t: Tombstone| !gone(bet_row(bets, t.server, t.bet)),
            k,
        );
        assert(has_bet(before.bets, before.tombstones[i].server, before.tombstones[i].bet));
        lemma_without_keeps_bet(
            before,
            gone,
            before.tombstones[i].server,
            before.tombstones[i].bet,
        );
    }
    assert forall|k: int| 0 <= k < after.wagers.len() implies {
        &&& has_option(after.options, (#[trigger] after.wagers[k]).server, after.wagers[k].option)
        &&& has_account(after.accounts, after.wagers[k].server, after.wagers[k].user)
        &&& after.wagers[k].amount > 0
        &&& owner(after.options, after.wagers[k].server, after.wagers[k].option) == owner(
            before.options,
            after.wagers[k].server,
            after.wagers[k].option,
        )
    } by {
        let i = lemma_filter_origin(
            before.wagers,
            |w: Wager| !gone(bet_row(bets, w.server, owner(options, w.server, w.option))),
            k,
        );
        let w = before.wagers[i];
        assert(has_option(before.options, w.server, w.option));
        assert(has_account(before.accounts, w.server, w.user));
        lemma_without_keeps_option(before, gone, w.server, w.option);
    }
}

/// Taking bets away with all that hung on them leaves the constraints in
/// place.
pub proof fn lemma_without_wf(before: Ledger, gone: spec_fn(Bet) -> bool)
    requires
        before.wf(),
    ensures
        before.without(gone).wf(),
{
    let after = before.without(gone);
    let bets = before.bets;
    let options = before.options;
    lemma_filter_bets(before.bets, |b: Bet| !gone(b));
    lemma_filter_options(before.options, |o: BetOption| !gone(bet_row(bets, o.server, o.bet)));
    lemma_filter_tombstones(
        before.tombstones,
        |t: Tombstone| !gone(bet_row(bets, t.server, t.bet)),
    );
    lemma_filter_wagers(
        before.options,
        before.wagers,
        |w: Wager| !gone(bet_row(bets, w.server, owner(options, w.server, w.option))),
    );
    lemma_without_refers(before, gone);
    assert forall|i: int, j: int|
        0 <= i < after.wagers.len() && 0 <= j < after.wagers.len() && after.wagers[i].server
            == after.wagers[j].server && after.wagers[i].user == after.wagers[j].user && owner(
            after.options,
            after.wagers[i].server,
            after.wagers[i].option,
        ) == owner(after.options, after.wagers[j].server, after.wagers[j].option)
        implies after.wagers[i].option == after.wagers[j].option by {
        assert(owner(after.options, after.wagers[i].server, after.wagers[i].option) == owner(
            before.options,
            after.wagers[i].server,
            after.wagers[i].option,
        ));
        assert(owner(after.options, after.wagers[j].server, after.wagers[j].option) == owner(
            before.options,
            after.wagers[j].server,
            after.wagers[j].option,
        ));
    }
}

/// Resetting a server leaves the constraints in place.
pub proof fn lemma_reset_wf(before: Ledger, server: Text, amount: nat)
    requires
        before.wf(),
    ensures
        before.reset(server, amount).wf(),
{
    let swept = before.without(|b: Bet| b.server == server && b.is_open);
    lemma_without_wf(before, |b: Bet| b.server == server && b.is_open);
    lemma_rebalanced(swept, before.reset(server, amount));
}

/// Removing the bets that are torn down leaves the constraints in place.
pub proof fn lemma_purge_wf(before: Ledger)
    requires
        before.wf(),
    ensures
        before.purge().wf(),
{
    let tombstones = before.tombstones;
    lemma_without_wf(before, |b: Bet| marked(tombstones, b.server, b.bet));
}

/// Whether a wager goes with the bets that are torn down is whether it is
/// on one of them, and so for an option and for a mark.
pub proof fn lemma_purge_rows(before: Ledger)
    requires
        before.wf(),
    ensures
        forall|i: int|
            0 <= i < before.bets.len() ==> bet_row(
                before.bets,
                (#[trigger] before.bets[i]).server,
                before.bets[i].bet,
            ) == before.bets[i],
        forall|i: int|
            0 <= i < before.options.len() ==> {
                &&& bet_row(
                    before.bets,
                    (#[trigger] before.options[i]).server,
                    before.options[i].bet,
                ).server == before.options[i].server
                &&& bet_row(before.bets, before.options[i].server, before.options[i].bet).bet
                    == before.options[i].bet
            },
        forall|i: int|
            0 <= i < before.tombstones.len() ==> {
                &&& bet_row(
                    before.bets,
                    (#[trigger] before.tombstones[i]).server,
                    before.tombstones[i].bet,
                ).server == before.tombstones[i].server
                &&& bet_row(before.bets, before.tombstones[i].server, before.tombstones[i].bet).bet
                    == before.tombstones[i].bet
            },
        forall|i: int|
            0 <= i < before.wagers.len() ==> {
                let w = #[trigger] before.wagers[i];
                let row = bet_row(before.bets, w.server, owner(before.options, w.server, w.option));
                row.server == w.server && row.bet == owner(before.options, w.server, w.option)
            },
{
    assert forall|i: int| 0 <= i < before.bets.len() implies bet_row(
        before.bets,
        (#[trigger] before.bets[i]).server,
        before.bets[i].bet,
    ) == before.bets[i] by {
        assert(bet_at(before.bets, i, before.bets[i].server, before.bets[i].bet));
        lemma_bet_found(before.bets, i, before.bets[i].server, before.bets[i].bet);
    }
    assert forall|i: int| 0 <= i < before.options.len() implies {
        &&& bet_row(
            before.bets,
            (#[trigger] before.options[i]).server,
            before.options[i].bet,
        ).server == before.options[i].server
        &&& bet_row(before.bets, before.options[i].server, before.options[i].bet).bet
            == before.options[i].bet
    } by {
        let o = before.options[i];
        assert(has_bet(before.bets, o.server, o.bet));
        assert(bet_at(before.bets, bet_index(before.bets, o.server, o.bet), o.server, o.bet));
    }
    assert forall|i: int| 0 <= i < before.tombstones.len() implies {
        &&& bet_row(
            before.bets,
            (#[trigger] before.tombstones[i]).server,
            before.tombstones[i].bet,
        ).server == before.tombstones[i].server
        &&& bet_row(before.bets, before.tombstones[i].server, before.tombstones[i].bet).bet
            == before.tombstones[i].bet
    } by {
        let t = before.tombstones[i];
        assert(has_bet(before.bets, t.server, t.bet));
        assert(bet_at(before.bets, bet_index(before.bets, t.server, t.bet), t.server, t.bet));
    }
    assert forall|i: int| 0 <= i < before.wagers.len() implies {
        let w = #[trigger] before.wagers[i];
        let row = bet_row(before.bets, w.server, owner(before.options, w.server, w.option));
        row.server == w.server && row.bet == owner(before.options, w.server, w.option)
    } by {
        let w = before.wagers[i];
        assert(has_option(before.options, w.server, w.option));
        let k = option_index(before.options, w.server, w.option);
        assert(option_at(before.options, k, w.server, w.option));
        let o = before.options[k];
        assert(has_bet(before.bets, o.server, o.bet));
        assert(bet_at(before.bets, bet_index(before.bets, o.server, o.bet), o.server, o.bet));
    }
}

} // verus!
