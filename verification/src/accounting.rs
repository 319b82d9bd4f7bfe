//! Where the money is: what credits, stakes and tear-downs do to the sum of
//! the balances and to the sums of the stakes.

use crate::lemmas::{
    lemma_account_found, lemma_credit_all_holders, lemma_filter_has, lemma_filter_origin,
    lemma_filter_pairwise, lemma_filtered_have_accounts, lemma_option_found, lemma_same_holders,
    lemma_same_players, lemma_wager_found, pairwise,
};
use crate::model::{
    account_at, account_index, accounts_unique, balance_of, credit, credit_all, credited_to,
    credits_total, deposits, has_account, held_by, marked, one_credit_each, option_at, option_index,
    owner, stake_amount, stakes, tombstone_at, wager_at, wager_in, wager_index, wager_live,
    wager_on, wagers_unique, Account, BetOption, Credit, Ledger, Text, Tombstone, Wager,
};
use crate::utils::{
    allocation, law_allocation_sums, lemma_sum_bounds, lemma_sum_filter, lemma_sum_pointwise,
    lemma_sum_push, lemma_sum_update,
};
use vstd::prelude::*;

verus! {

/// A credit to an account that exists adds its amount to the deposits.
pub proof fn lemma_credit_deposits(accounts: Seq<Account>, server: Text, user: Text, amount: nat)
    requires
        accounts_unique(accounts),
        has_account(accounts, server, user),
    ensures
        deposits(credit(accounts, server, user, amount)) == deposits(accounts) + amount,
{
    let i = account_index(accounts, server, user);
    assert(account_at(accounts, i, server, user));
    let paid = credit(accounts, server, user, amount);
    let held = |a: Account| a.balance;
    assert forall|j: int| 0 <= j < accounts.len() && j != i implies !(accounts[j].server == server
        && accounts[j].user == user) by {
        if accounts[j].server == server && accounts[j].user == user {
            lemma_account_found(accounts, j, server, user);
        }
    }
    assert(paid.map_values(held) =~= accounts.map_values(held).update(
        i,
        accounts[i].balance + amount,
    ));
    lemma_sum_update(accounts.map_values(held), i, accounts[i].balance + amount);
}

/// Credits to accounts that exist add their total to the deposits.
pub proof fn lemma_credit_all_deposits(accounts: Seq<Account>, server: Text, credits: Seq<Credit>)
    requires
        accounts_unique(accounts),
        forall|k: int|
            0 <= k < credits.len() ==> has_account(accounts, server, (#[trigger] credits[k]).user),
    ensures
        deposits(credit_all(accounts, server, credits)) == deposits(accounts) + credits_total(
            credits,
        ),
    decreases credits.len(),
{
    let amount = |c: Credit| c.amount;
    if credits.len() == 0 {
        assert(credits.map_values(amount) =~= Seq::<nat>::empty());
    } else {
        let rest = credits.drop_last();
        let last = credits.last();
        assert forall|k: int| 0 <= k < rest.len() implies has_account(
            accounts,
            server,
            (#[trigger] rest[k]).user,
        ) by {
            assert(rest[k] == credits[k]);
        }
        lemma_credit_all_deposits(accounts, server, rest);
        let paid = credit_all(accounts, server, rest);
        lemma_credit_all_holders(accounts, server, rest);
        lemma_same_holders(accounts, paid);
        assert(has_account(accounts, server, credits[credits.len() - 1].user));
        lemma_credit_deposits(paid, server, last.user, last.amount);
        assert(credits.map_values(amount).drop_last() =~= rest.map_values(amount));
    }
}

/// A bet is marked after one more mark if it was marked before or if the
/// new mark is its own.
pub proof fn lemma_marked_push(tombstones: Seq<Tombstone>, mark: Tombstone, server: Text, bet: Text)
    ensures
        marked(tombstones.push(mark), server, bet) <==> marked(tombstones, server, bet) || (
        mark.server == server && mark.bet == bet),
{
    let after = tombstones.push(mark);
    if marked(tombstones, server, bet) {
        let i = choose|i: int| tombstone_at(tombstones, i, server, bet);
        assert(tombstone_at(after, i, server, bet));
    }
    if mark.server == server && mark.bet == bet {
        assert(tombstone_at(after, tombstones.len() as int, server, bet));
    }
    if marked(after, server, bet) {
        let i = choose|i: int| tombstone_at(after, i, server, bet);
        if i < tombstones.len() {
            assert(tombstone_at(tombstones, i, server, bet));
        }
    }
}

/// Tearing a live bet down takes its pool, and nothing else, out of what
/// is at stake.
pub proof fn lemma_tear_down_at_stake(before: Ledger, server: Text, bet: Text, credits: Seq<Credit>)
    requires
        before.wf(),
        before.is_live(server, bet),
    ensures
        before.tear_down(server, bet, credits).at_stake() + before.pool(server, bet)
            == before.at_stake(),
{
    let after = before.tear_down(server, bet, credits);
    let options = before.options;
    let wagers = before.wagers;
    let marks = before.tombstones;
    let marks_after = after.tombstones;
    let live = |w: Wager| wager_live(options, marks, w);
    let live_after = |w: Wager| wager_live(options, marks_after, w);
    let due = |w: Wager| wager_in(options, w, server, bet);
    let a = wagers.map_values(
        |w: Wager|
            if live(w) {
                w.amount
            } else {
                0
            },
    );
    let b = wagers.map_values(
        |w: Wager|
            if live_after(w) {
                w.amount
            } else {
                0
            },
    );
    let c = wagers.map_values(
        |w: Wager|
            if due(w) {
                w.amount
            } else {
                0
            },
    );
    assert forall|i: int| 0 <= i < a.len() implies #[trigger] a[i] == b[i] + c[i] by {
        let w = wagers[i];
        lemma_marked_push(
            marks,
            Tombstone { server, bet },
            w.server,
            owner(options, w.server, w.option),
        );
    }
    lemma_sum_pointwise(a, b, c);
}

/// What calling off a bet gives back is the pool of the bet.
pub proof fn lemma_refunds_total(ledger: Ledger, server: Text, bet: Text)
    ensures
        credits_total(ledger.refunds(server, bet)) == ledger.pool(server, bet),
{
    let options = ledger.options;
    let due = |w: Wager| wager_in(options, w, server, bet);
    let held = |w: Wager| w.amount;
    let kept = ledger.wagers.filter(due);
    assert(ledger.refunds(server, bet).map_values(|c: Credit| c.amount) =~= kept.map_values(held));
    lemma_sum_filter(ledger.wagers, due, held);
    assert(ledger.wagers.map_values(
        |x: Wager|
            if due(x) {
                held(x)
            } else {
                0
            },
    ) =~= ledger.wagers.map_values(
        |w: Wager|
            if due(w) {
                w.amount
            } else {
                0
            },
    ));
}

/// What settling a bet pays is the pool of the bet, where the winning
/// option holds a wager.
pub proof fn lemma_winnings_total(ledger: Ledger, server: Text, option: Text)
    requires
        ledger.wf(),
        ledger.winners(server, option).len() > 0,
    ensures
        credits_total(ledger.winnings(server, option)) == ledger.pool(
            server,
            ledger.bet_of_option(server, option),
        ),
{
    let winners = ledger.winners(server, option);
    let weights = winners.map_values(|w: Wager| w.amount);
    let pool = ledger.pool(server, ledger.bet_of_option(server, option));
    let gains = allocation(pool, weights);
    lemma_filtered_have_accounts(ledger, |w: Wager| wager_on(w, server, option), 0);
    assert(weights[0] > 0) by {
        let w = winners[0];
        let i = choose|i: int| 0 <= i < ledger.wagers.len() && ledger.wagers[i] == w;
        assert(ledger.wagers[i].amount > 0);
    }
    lemma_sum_bounds(weights, 0);
    law_allocation_sums(pool, weights);
    assert(ledger.winnings(server, option).map_values(|c: Credit| c.amount) =~= gains);
}

/// The share of a balance that a fraction between nothing and all comes to
/// is no more than the balance.
pub proof fn lemma_stake_amount_bound(balance: nat, numerator: nat, denominator: nat)
    requires
        0 < denominator,
        numerator <= denominator,
    ensures
        stake_amount(balance, numerator, denominator) <= balance,
{
    let amount = stake_amount(balance, numerator, denominator);
    assert(amount <= balance) by (nonlinear_arith)
        requires
            amount == (balance * numerator + denominator - 1) / (denominator as int),
            0 <= numerator <= denominator,
            0 < denominator,
            0 <= balance,
    ;
}

/// A stake adds its amount to a sum of stakes if the wager that it goes to
/// is among those that the sum is taken over, where that does not hang on
/// what the wager holds.
pub proof fn lemma_stake_stakes(
    before: Ledger,
    server: Text,
    option: Text,
    user: Text,
    amount: nat,
    chosen: spec_fn(Wager) -> bool,
)
    requires
        wagers_unique(before.wagers),
        before.has_wager(server, option, user) ==> chosen(
            Wager { server, option, user, amount: before.staked_on(server, option, user) + amount },
        ) == chosen(Wager { server, option, user, amount: before.staked_on(server, option, user) }),
    ensures
        stakes(before.stake(server, option, user, amount).wagers, chosen) == stakes(
            before.wagers,
            chosen,
        ) + if chosen(
            Wager { server, option, user, amount: before.staked_on(server, option, user) + amount },
        ) {
            amount
        } else {
            0
        },
{
    let after = before.stake(server, option, user, amount);
    let count = |w: Wager|
        if chosen(w) {
            w.amount
        } else {
            0
        };
    let staked = before.wagers.map_values(count);
    if before.has_wager(server, option, user) {
        let j = wager_index(before.wagers, server, option, user);
        assert(wager_at(before.wagers, j, server, option, user));
        lemma_wager_found(before.wagers, j, server, option, user);
        assert forall|k: int| 0 <= k < before.wagers.len() && k != j implies !(
        before.wagers[k].server == server && before.wagers[k].option == option
            && before.wagers[k].user == user) by {
            if wager_at(before.wagers, k, server, option, user) {
                lemma_wager_found(before.wagers, k, server, option, user);
            }
        }
        let grown = Wager { server, option, user, amount: before.wagers[j].amount + amount };
        assert(before.wagers[j] == Wager { server, option, user, amount: before.wagers[j].amount });
        assert(after.wagers[j] == grown);
        assert(after.wagers.map_values(count) =~= staked.update(j, count(grown)));
        lemma_sum_update(staked, j, count(grown));
    } else {
        let fresh = Wager { server, option, user, amount };
        assert(after.wagers.map_values(count) =~= staked.push(count(fresh)));
        lemma_sum_push(staked, count(fresh));
    }
}

/// A stake leaves accounts and wagers under unique keys and changes no
/// other table, so that whatever a later stake needs is still there.
pub proof fn lemma_stake_keeps_keys(before: Ledger, server: Text, option: Text, user: Text, amount: nat)
    requires
        accounts_unique(before.accounts),
        wagers_unique(before.wagers),
        before.has_account(server, user),
    ensures
        accounts_unique(before.stake(server, option, user, amount).accounts),
        wagers_unique(before.stake(server, option, user, amount).wagers),
        before.stake(server, option, user, amount).has_account(server, user),
        before.stake(server, option, user, amount).bets == before.bets,
        before.stake(server, option, user, amount).options == before.options,
        before.stake(server, option, user, amount).tombstones == before.tombstones,
{
    let after = before.stake(server, option, user, amount);
    lemma_same_holders(before.accounts, after.accounts);
    if before.has_wager(server, option, user) {
        lemma_same_players(before.options, before.wagers, after.wagers);
    } else {
        let n = before.wagers.len() as int;
        assert forall|a: int, b: int| 0 <= a < b < after.wagers.len() implies !(
        after.wagers[a].server == after.wagers[b].server && after.wagers[a].option
            == after.wagers[b].option && after.wagers[a].user == after.wagers[b].user) by {
            if b == n {
                assert(!wager_at(before.wagers, a, server, option, user));
            } else {
                assert(!(before.wagers[a].server == before.wagers[b].server
                    && before.wagers[a].option == before.wagers[b].option
                    && before.wagers[a].user == before.wagers[b].user));
            }
        }
    }
}

/// A user who has a wager on one option of a bet is, seen from any other
/// option of that bet, held by exactly that option.
pub proof fn lemma_held_on_one(before: Ledger, server: Text, taken: Text, other: Text, user: Text)
    requires
        before.wf(),
        before.has_option(server, taken),
        before.has_option(server, other),
        taken != other,
        before.bet_of_option(server, taken) == before.bet_of_option(server, other),
        before.has_wager(server, taken, user),
    ensures
        before.held_elsewhere(server, other, user) == seq![taken],
{
    let options = before.options;
    let wagers = before.wagers;
    let bet = owner(options, server, other);
    let keep = |o: BetOption| held_by(options, wagers, o, server, other, user);
    let kept = options.filter(keep);
    let at = option_index(options, server, taken);
    assert(option_at(options, at, server, taken));
    lemma_option_found(options, at, server, taken);
    assert(keep(options[at]));
    let first = lemma_filter_has(options, keep, at);
    let mine = wager_index(wagers, server, taken, user);
    assert(wager_at(wagers, mine, server, taken, user));
    assert forall|k: int| 0 <= k < kept.len() implies (#[trigger] kept[k]).option == taken
        && kept[k].server == server by {
        let i = lemma_filter_origin(options, keep, k);
        let o = options[i];
        assert(option_at(options, i, server, o.option));
        lemma_option_found(options, i, server, o.option);
        let theirs = wager_index(wagers, server, o.option, user);
        assert(wager_at(wagers, theirs, server, o.option, user));
        assert(wagers[theirs].option == wagers[mine].option);
    }
    let apart = |a: BetOption, b: BetOption| !(a.server == b.server && a.option == b.option);
    assert(pairwise(options, apart));
    lemma_filter_pairwise(options, keep, apart);
    if kept.len() > 1 {
        assert(apart(kept[0], kept[1]));
        assert(kept[0].option == taken && kept[1].option == taken);
    }
    assert(kept.map_values(|o: BetOption| o.option) =~= seq![taken]);
}

/// Raising every balance by an amount raises the deposits by the amount
/// for each account.
pub proof fn lemma_raise_all(accounts: Seq<Account>, amount: nat)
    ensures
        deposits(accounts.map_values(|a: Account| Account { balance: a.balance + amount, ..a }))
            == deposits(accounts) + amount * accounts.len(),
    decreases accounts.len(),
{
    let raise = |a: Account| Account { balance: a.balance + amount, ..a };
    let held = |a: Account| a.balance;
    if accounts.len() == 0 {
        assert(accounts.map_values(raise).map_values(held) =~= Seq::<nat>::empty());
        assert(accounts.map_values(held) =~= Seq::<nat>::empty());
        assert(amount * 0 == 0) by (nonlinear_arith);
    } else {
        let rest = accounts.drop_last();
        lemma_raise_all(rest, amount);
        assert(accounts.map_values(raise).map_values(held).drop_last() =~= rest.map_values(
            raise,
        ).map_values(held));
        assert(accounts.map_values(held).drop_last() =~= rest.map_values(held));
        assert(amount * accounts.len() == amount * rest.len() + amount) by (nonlinear_arith)
            requires
                accounts.len() == rest.len() + 1,
        ;
    }
}

/// After credits have been paid, an account holds what it held and what
/// was credited to its user.
pub proof fn lemma_credit_all_balance(
    accounts: Seq<Account>,
    server: Text,
    credits: Seq<Credit>,
    user: Text,
)
    requires
        accounts_unique(accounts),
        has_account(accounts, server, user),
    ensures
        has_account(credit_all(accounts, server, credits), server, user),
        balance_of(credit_all(accounts, server, credits), server, user) == balance_of(
            accounts,
            server,
            user,
        ) + credited_to(credits, user),
    decreases credits.len(),
{
    let paid = credit_all(accounts, server, credits);
    let counted = |c: Credit|
        if c.user == user {
            c.amount
        } else {
            0
        };
    let i = account_index(accounts, server, user);
    assert(account_at(accounts, i, server, user));
    lemma_credit_all_holders(accounts, server, credits);
    lemma_same_holders(accounts, paid);
    lemma_account_found(accounts, i, server, user);
    assert(account_at(paid, i, server, user));
    lemma_account_found(paid, i, server, user);
    if credits.len() == 0 {
        assert(credits.map_values(counted) =~= Seq::<nat>::empty());
    } else {
        let rest = credits.drop_last();
        let before = credit_all(accounts, server, rest);
        lemma_credit_all_balance(accounts, server, rest, user);
        lemma_credit_all_holders(accounts, server, rest);
        lemma_same_holders(accounts, before);
        assert(account_at(before, i, server, user));
        lemma_account_found(before, i, server, user);
        assert(credits.map_values(counted).drop_last() =~= rest.map_values(counted));
    }
}

/// Where no two credits are to one user, what is credited to the user of
/// a credit is the amount of that credit.
pub proof fn lemma_credited_once(credits: Seq<Credit>, k: int)
    requires
        one_credit_each(credits),
        0 <= k < credits.len(),
    ensures
        credited_to(credits, credits[k].user) == credits[k].amount,
    decreases credits.len(),
{
    let user = credits[k].user;
    let counted = |c: Credit|
        if c.user == user {
            c.amount
        } else {
            0
        };
    let rest = credits.drop_last();
    assert(credits.map_values(counted).drop_last() =~= rest.map_values(counted));
    if k == credits.len() - 1 {
        lemma_not_credited(rest, user);
    } else {
        lemma_credited_once(rest, k);
        assert(credits[k].user != credits[credits.len() - 1].user);
    }
}

/// What is credited to a user to whom no credit is made is nothing.
pub proof fn lemma_not_credited(credits: Seq<Credit>, user: Text)
    requires
        forall|i: int| 0 <= i < credits.len() ==> (#[trigger] credits[i]).user != user,
    ensures
        credited_to(credits, user) == 0,
    decreases credits.len(),
{
    let counted = |c: Credit|
        if c.user == user {
            c.amount
        } else {
            0
        };
    if credits.len() == 0 {
        assert(credits.map_values(counted) =~= Seq::<nat>::empty());
    } else {
        let rest = credits.drop_last();
        assert(credits.map_values(counted).drop_last() =~= rest.map_values(counted));
        lemma_not_credited(rest, user);
    }
}

/// The refunds of a bet are one for each user who has a wager on it.
pub proof fn lemma_refunds_one_each(ledger: Ledger, server: Text, bet: Text)
    requires
        ledger.wf(),
    ensures
        one_credit_each(ledger.refunds(server, bet)),
{
    let options = ledger.options;
    let due = |w: Wager| wager_in(options, w, server, bet);
    let apart = |a: Wager, b: Wager|
        !(a.server == b.server && a.user == b.user && owner(options, a.server, a.option) == owner(
            options,
            b.server,
            b.option,
        ));
    assert(pairwise(ledger.wagers, apart));
    lemma_filter_pairwise(ledger.wagers, due, apart);
    let kept = ledger.wagers.filter(due);
    let credits = ledger.refunds(server, bet);
    assert forall|i: int, j: int| 0 <= i < j < credits.len() implies credits[i].user
        != credits[j].user by {
        assert(apart(kept[i], kept[j]));
        ledger.wagers.lemma_filter_pred(due, i);
        ledger.wagers.lemma_filter_pred(due, j);
    }
}

/// The winnings of a bet are one for each user who has a wager on the
/// winning option.
pub proof fn lemma_winnings_one_each(ledger: Ledger, server: Text, option: Text)
    requires
        ledger.wf(),
    ensures
        one_credit_each(ledger.winnings(server, option)),
{
    let due = |w: Wager| wager_on(w, server, option);
    let apart = |a: Wager, b: Wager|
        !(a.server == b.server && a.option == b.option && a.user == b.user);
    assert(pairwise(ledger.wagers, apart));
    lemma_filter_pairwise(ledger.wagers, due, apart);
    let kept = ledger.wagers.filter(due);
    let credits = ledger.winnings(server, option);
    assert forall|i: int, j: int| 0 <= i < j < credits.len() implies credits[i].user
        != credits[j].user by {
        assert(apart(kept[i], kept[j]));
        ledger.wagers.lemma_filter_pred(due, i);
        ledger.wagers.lemma_filter_pred(due, j);
    }
}

/// The stakes that are chosen among the wagers that a filter keeps are the
/// stakes of the wagers that are both kept and chosen.
pub proof fn lemma_stakes_filtered(
    wagers: Seq<Wager>,
    keep: spec_fn(Wager) -> bool,
    chosen: spec_fn(Wager) -> bool,
    both: spec_fn(Wager) -> bool,
)
    requires
        forall|w: Wager| #[trigger] both(w) == (keep(w) && chosen(w)),
    ensures
        stakes(wagers.filter(keep), chosen) == stakes(wagers, both),
    decreases wagers.len(),
{
    reveal(Seq::filter);
    let count = |w: Wager|
        if chosen(w) {
            w.amount
        } else {
            0
        };
    let count_both = |w: Wager|
        if both(w) {
            w.amount
        } else {
            0
        };
    if wagers.len() == 0 {
        assert(wagers.filter(keep).map_values(count) =~= Seq::<nat>::empty());
        assert(wagers.map_values(count_both) =~= Seq::<nat>::empty());
    } else {
        let rest = wagers.drop_last();
        let last = wagers.last();
        lemma_stakes_filtered(rest, keep, chosen, both);
        assert(wagers.map_values(count_both).drop_last() =~= rest.map_values(count_both));
        assert(both(last) == (keep(last) && chosen(last)));
        if keep(last) {
            assert(wagers.filter(keep).map_values(count) =~= rest.filter(keep).map_values(
                count,
            ).push(count(last)));
            lemma_sum_push(rest.filter(keep).map_values(count), count(last));
        }
    }
}

} // verus!
