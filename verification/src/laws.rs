//! What holds of the ledger whatever is done with it: money is neither made
//! nor lost, stakes add up, nobody is on two sides of a bet, and a bet that
//! is torn down stays out of reach.

use crate::accounting::{
    lemma_credit_all_balance, lemma_credit_all_deposits, lemma_credited_once, lemma_held_on_one,
    lemma_marked_push, lemma_raise_all, lemma_refunds_one_each, lemma_refunds_total,
    lemma_stake_amount_bound, lemma_stake_keeps_keys, lemma_stake_stakes, lemma_stakes_filtered,
    lemma_tear_down_at_stake, lemma_winnings_one_each, lemma_winnings_total,
};
use crate::lemmas::{
    lemma_account_found, lemma_bet_found, lemma_filter_has, lemma_filter_origin, lemma_filter_same,
    lemma_filtered_have_accounts, lemma_purge_rows, lemma_purge_wf, lemma_same_holders,
    lemma_stake_wf, lemma_tear_down_wf, lemma_wager_found,
};
use crate::model::{
    account_at, account_index, accounts_unique, bet_at, bet_index, bet_row, deposits, has_account,
    has_bet, marked, one_credit_each, option_at, option_index, owner, stake_amount, tombstone_at,
    wager_at, wager_in, wager_index, wager_live, wager_on, wagers_unique, Account, Bet, Credit,
    Failure, Ledger, Text, Tombstone, Wager,
};
use crate::utils::{lemma_sum_push, lemma_sum_update};
use vstd::prelude::*;

verus! {

/// The amount that a share of a balance comes to is the share rounded up:
/// the least whole amount that is no less than the share.
pub proof fn law_stake_amount_rounds_up(balance: nat, numerator: nat, denominator: nat)
    requires
        0 < denominator,
    ensures
        stake_amount(balance, numerator, denominator) * denominator >= balance * numerator,
        (stake_amount(balance, numerator, denominator) - 1) * denominator < balance * numerator,
{
    let amount = stake_amount(balance, numerator, denominator);
    let scaled = balance * numerator + denominator - 1;
    vstd::arithmetic::div_mod::lemma_fundamental_div_mod(scaled as int, denominator as int);
    assert(amount * denominator >= balance * numerator && (amount - 1) * denominator < balance
        * numerator) by (nonlinear_arith)
        requires
            scaled == denominator * amount + scaled % (denominator as int),
            0 <= scaled % (denominator as int) < denominator,
            scaled == balance * numerator + denominator - 1,
    ;
}

/// A stake moves its amount from the account to what is at stake and
/// leaves the money as it was; what the user has on the option grows by the
/// amount, in the one wager that the user has there.
pub proof fn law_stake_moves(before: Ledger, server: Text, option: Text, user: Text, amount: nat)
    requires
        accounts_unique(before.accounts),
        wagers_unique(before.wagers),
        before.has_option(server, option),
        !before.is_torn_down(server, before.bet_of_option(server, option)),
        before.has_account(server, user),
        amount <= before.balance_of(server, user),
    ensures
        deposits(before.stake(server, option, user, amount).accounts) + amount == deposits(
            before.accounts,
        ),
        before.stake(server, option, user, amount).at_stake() == before.at_stake() + amount,
        before.stake(server, option, user, amount).money() == before.money(),
        before.stake(server, option, user, amount).has_wager(server, option, user),
        before.stake(server, option, user, amount).staked_on(server, option, user)
            == before.staked_on(server, option, user) + amount,
        before.stake(server, option, user, amount).balance_of(server, user) + amount
            == before.balance_of(server, user),
        before.stake(server, option, user, amount).wagers.len() == before.wagers.len() + if before.has_wager(
            server,
            option,
            user,
        ) {
            0int
        } else {
            1int
        },
{
    let after = before.stake(server, option, user, amount);
    let held = |a: Account| a.balance;
    let i = account_index(before.accounts, server, user);
    assert(account_at(before.accounts, i, server, user));
    assert forall|j: int| 0 <= j < before.accounts.len() && j != i implies !(
    before.accounts[j].server == server && before.accounts[j].user == user) by {
        if before.accounts[j].server == server && before.accounts[j].user == user {
            lemma_account_found(before.accounts, j, server, user);
        }
    }
    assert(after.accounts.map_values(held) =~= before.accounts.map_values(held).update(
        i,
        (before.accounts[i].balance - amount) as nat,
    ));
    lemma_sum_update(
        before.accounts.map_values(held),
        i,
        (before.accounts[i].balance - amount) as nat,
    );
    lemma_same_holders(before.accounts, after.accounts);
    assert(account_at(after.accounts, i, server, user));
    lemma_account_found(after.accounts, i, server, user);

    let options = before.options;
    let marks = before.tombstones;
    lemma_stake_stakes(before, server, option, user, amount, |w: Wager| wager_live(options, marks, w));
    lemma_stake_keeps_keys(before, server, option, user, amount);
    if before.has_wager(server, option, user) {
        let j = wager_index(before.wagers, server, option, user);
        assert(wager_at(before.wagers, j, server, option, user));
        assert(wager_at(after.wagers, j, server, option, user));
        lemma_wager_found(after.wagers, j, server, option, user);
        lemma_wager_found(before.wagers, j, server, option, user);
    } else {
        let n = before.wagers.len() as int;
        assert(wager_at(after.wagers, n, server, option, user));
        lemma_wager_found(after.wagers, n, server, option, user);
    }
}

/// A stake adds its amount to the pool of the bet of its option and to
/// what its user has at stake in the server, and to no other pool and to
/// what no other user has at stake.
pub proof fn law_stake_pools(
    before: Ledger,
    server: Text,
    option: Text,
    user: Text,
    amount: nat,
    other_server: Text,
    other_bet: Text,
    other_user: Text,
)
    requires
        wagers_unique(before.wagers),
        !before.is_torn_down(server, before.bet_of_option(server, option)),
    ensures
        before.stake(server, option, user, amount).pool(other_server, other_bet) == before.pool(
            other_server,
            other_bet,
        ) + if other_server == server && other_bet == before.bet_of_option(server, option) {
            amount
        } else {
            0
        },
        before.stake(server, option, user, amount).in_bet(other_server, other_user)
            == before.in_bet(other_server, other_user) + if other_server == server && other_user
            == user {
            amount
        } else {
            0
        },
{
    let options = before.options;
    let marks = before.tombstones;
    lemma_stake_stakes(
        before,
        server,
        option,
        user,
        amount,
        |w: Wager| wager_in(options, w, other_server, other_bet),
    );
    lemma_stake_stakes(
        before,
        server,
        option,
        user,
        amount,
        |w: Wager| w.server == other_server && w.user == other_user && wager_live(options, marks, w),
    );
}

/// A stake that is not refused leaves the constraints in place and the
/// money as it was.
pub proof fn law_bet_on_conserves(
    before: Ledger,
    server: Text,
    option: Text,
    user: Text,
    numerator: nat,
    denominator: nat,
)
    requires
        before.wf(),
        0 < denominator,
        numerator <= denominator,
        before.stake_refused(server, option, user, numerator, denominator) is None,
    ensures
        before.stake(
            server,
            option,
            user,
            stake_amount(before.balance_of(server, user), numerator, denominator),
        ).wf(),
        before.stake(
            server,
            option,
            user,
            stake_amount(before.balance_of(server, user), numerator, denominator),
        ).money() == before.money(),
{
    let amount = stake_amount(before.balance_of(server, user), numerator, denominator);
    lemma_stake_amount_bound(before.balance_of(server, user), numerator, denominator);
    lemma_stake_wf(before, server, option, user, amount);
    law_stake_moves(before, server, option, user, amount);
}

/// Calling off a bet moves its pool from what is at stake to the accounts
/// and leaves the money as it was.
pub proof fn law_abort_conserves(before: Ledger, server: Text, bet: Text)
    requires
        before.wf(),
        before.is_live(server, bet),
    ensures
        deposits(before.abort_bet(server, bet).accounts) == deposits(before.accounts)
            + before.pool(server, bet),
        before.abort_bet(server, bet).at_stake() + before.pool(server, bet) == before.at_stake(),
        before.abort_bet(server, bet).money() == before.money(),
{
    let credits = before.refunds(server, bet);
    let options = before.options;
    let due = |w: Wager| wager_in(options, w, server, bet);
    assert forall|k: int| 0 <= k < credits.len() implies has_account(
        before.accounts,
        server,
        (#[trigger] credits[k]).user,
    ) by {
        lemma_filtered_have_accounts(before, due, k);
    }
    lemma_credit_all_deposits(before.accounts, server, credits);
    lemma_refunds_total(before, server, bet);
    lemma_tear_down_at_stake(before, server, bet, credits);
}

/// Settling a bet on an option that holds a wager moves the pool of the
/// bet from what is at stake to the accounts of the winners and leaves the
/// money as it was.
pub proof fn law_close_conserves(before: Ledger, server: Text, option: Text)
    requires
        before.wf(),
        before.has_option(server, option),
        !before.is_torn_down(server, before.bet_of_option(server, option)),
        before.winners(server, option).len() > 0,
    ensures
        deposits(before.close_bet(server, option).accounts) == deposits(before.accounts)
            + before.pool(server, before.bet_of_option(server, option)),
        before.close_bet(server, option).at_stake() + before.pool(
            server,
            before.bet_of_option(server, option),
        ) == before.at_stake(),
        before.close_bet(server, option).money() == before.money(),
{
    let bet = before.bet_of_option(server, option);
    let credits = before.winnings(server, option);
    let due = |w: Wager| wager_on(w, server, option);
    assert forall|k: int| 0 <= k < credits.len() implies has_account(
        before.accounts,
        server,
        (#[trigger] credits[k]).user,
    ) by {
        lemma_filtered_have_accounts(before, due, k);
    }
    let i = option_index(before.options, server, option);
    assert(option_at(before.options, i, server, option));
    assert(crate::model::has_bet(before.bets, before.options[i].server, before.options[i].bet));
    lemma_credit_all_deposits(before.accounts, server, credits);
    lemma_winnings_total(before, server, option);
    lemma_tear_down_at_stake(before, server, bet, credits);
}

/// One stake of a run of stakes: a user puts a share of the balance on an
/// option.
pub struct Stake {
    pub option: Text,
    pub user: Text,
    pub numerator: nat,
    pub denominator: nat,
}

/// The ledger after a run of stakes in `server`, each made if it is not
/// refused and passed over if it is.
pub open spec fn after_stakes(before: Ledger, server: Text, run: Seq<Stake>) -> Ledger
    decreases run.len(),
{
    if run.len() == 0 {
        before
    } else {
        let prior = after_stakes(before, server, run.drop_last());
        let s = run.last();
        if prior.stake_refused(server, s.option, s.user, s.numerator, s.denominator) is None {
            prior.stake(
                server,
                s.option,
                s.user,
                stake_amount(prior.balance_of(server, s.user), s.numerator, s.denominator),
            )
        } else {
            prior
        }
    }
}

/// Every stake of the run is of a share between nothing and all.
pub open spec fn shares_valid(run: Seq<Stake>) -> bool {
    forall|k: int|
        0 <= k < run.len() ==> 0 < (#[trigger] run[k]).denominator && run[k].numerator
            <= run[k].denominator
}

/// Any run of stakes leaves the constraints in place and the money as it
/// was.
pub proof fn law_stakes_conserve(before: Ledger, server: Text, run: Seq<Stake>)
    requires
        before.wf(),
        shares_valid(run),
    ensures
        after_stakes(before, server, run).wf(),
        after_stakes(before, server, run).money() == before.money(),
    decreases run.len(),
{
    if run.len() > 0 {
        let rest = run.drop_last();
        assert forall|k: int| 0 <= k < rest.len() implies 0 < (#[trigger] rest[k]).denominator
            && rest[k].numerator <= rest[k].denominator by {
            assert(rest[k] == run[k]);
        }
        law_stakes_conserve(before, server, rest);
        let prior = after_stakes(before, server, rest);
        let s = run[run.len() - 1];
        if prior.stake_refused(server, s.option, s.user, s.numerator, s.denominator) is None {
            law_bet_on_conserves(prior, server, s.option, s.user, s.numerator, s.denominator);
        }
    }
}

/// Any run of stakes followed by calling a bet off leaves the money as it
/// was: what the stakes took from the accounts, the refunds give back.
pub proof fn law_stakes_then_abort_conserve(
    before: Ledger,
    server: Text,
    run: Seq<Stake>,
    bet: Text,
)
    requires
        before.wf(),
        shares_valid(run),
        after_stakes(before, server, run).is_live(server, bet),
    ensures
        after_stakes(before, server, run).abort_bet(server, bet).wf(),
        after_stakes(before, server, run).abort_bet(server, bet).money() == before.money(),
{
    law_stakes_conserve(before, server, run);
    let staked = after_stakes(before, server, run);
    law_abort_conserves(staked, server, bet);
    lemma_tear_down_wf(staked, server, bet, staked.refunds(server, bet));
}

/// Any run of stakes followed by settling a bet on an option that holds a
/// wager leaves the money as it was: what the stakes took from the
/// accounts, the winnings pay out.
pub proof fn law_stakes_then_close_conserve(
    before: Ledger,
    server: Text,
    run: Seq<Stake>,
    option: Text,
)
    requires
        before.wf(),
        shares_valid(run),
        after_stakes(before, server, run).has_option(server, option),
        !after_stakes(before, server, run).is_torn_down(
            server,
            after_stakes(before, server, run).bet_of_option(server, option),
        ),
        after_stakes(before, server, run).winners(server, option).len() > 0,
    ensures
        after_stakes(before, server, run).close_bet(server, option).wf(),
        after_stakes(before, server, run).close_bet(server, option).money() == before.money(),
{
    law_stakes_conserve(before, server, run);
    let staked = after_stakes(before, server, run);
    law_close_conserves(staked, server, option);
    let i = option_index(staked.options, server, option);
    assert(option_at(staked.options, i, server, option));
    assert(has_bet(staked.bets, staked.options[i].server, staked.options[i].bet));
    lemma_tear_down_wf(
        staked,
        server,
        staked.bet_of_option(server, option),
        staked.winnings(server, option),
    );
}

/// An income adds its amount to the deposits once for each account and
/// leaves what is at stake as it was.
pub proof fn law_income_adds(before: Ledger, amount: nat)
    ensures
        deposits(before.income(amount).accounts) == deposits(before.accounts) + amount
            * before.accounts.len(),
        before.income(amount).at_stake() == before.at_stake(),
{
    lemma_raise_all(before.accounts, amount);
}

/// A new account adds what it holds to the deposits and leaves what is at
/// stake as it was.
pub proof fn law_create_account_adds(before: Ledger, server: Text, user: Text, amount: nat)
    ensures
        deposits(before.create_account(server, user, amount).accounts) == deposits(
            before.accounts,
        ) + amount,
        before.create_account(server, user, amount).at_stake() == before.at_stake(),
{
    let held = |a: Account| a.balance;
    let row = Account { server, user, balance: amount };
    assert(before.accounts.push(row).map_values(held) =~= before.accounts.map_values(held).push(
        amount,
    ));
    lemma_sum_push(before.accounts.map_values(held), amount);
}

/// Locking a bet moves no money.
pub proof fn law_lock_bet_conserves(before: Ledger, server: Text, bet: Text)
    ensures
        before.lock_bet(server, bet).money() == before.money(),
{
}

/// Two stakes by one user on one option, of `first` and then of `second`,
/// leave one wager there, which has grown by `first + second`.
pub proof fn law_stakes_accumulate(
    before: Ledger,
    server: Text,
    option: Text,
    user: Text,
    first: nat,
    second: nat,
)
    requires
        before.wf(),
        before.has_option(server, option),
        !before.is_torn_down(server, before.bet_of_option(server, option)),
        before.has_account(server, user),
        first + second <= before.balance_of(server, user),
    ensures
        ({
            let after = before.stake(server, option, user, first).stake(
                server,
                option,
                user,
                second,
            );
            &&& after.has_wager(server, option, user)
            &&& after.staked_on(server, option, user) == before.staked_on(server, option, user)
                + first + second
            &&& after.wagers.len() == before.wagers.len() + if before.has_wager(
                server,
                option,
                user,
            ) {
                0int
            } else {
                1int
            }
            &&& after.balance_of(server, user) + first + second == before.balance_of(server, user)
            &&& wagers_unique(after.wagers)
        }),
{
    let between = before.stake(server, option, user, first);
    law_stake_moves(before, server, option, user, first);
    lemma_stake_keeps_keys(before, server, option, user, first);
    law_stake_moves(between, server, option, user, second);
    lemma_stake_keeps_keys(between, server, option, user, second);
}

/// A stake on a second option of a bet is refused, and the refusal names
/// the option that the user is on.
pub proof fn law_second_option_refused(
    before: Ledger,
    server: Text,
    taken: Text,
    other: Text,
    user: Text,
    numerator: nat,
    denominator: nat,
)
    requires
        before.wf(),
        before.has_option(server, taken),
        before.has_option(server, other),
        taken != other,
        before.bet_of_option(server, taken) == before.bet_of_option(server, other),
        before.has_wager(server, taken, user),
        !before.is_torn_down(server, before.bet_of_option(server, other)),
        before.bet_row(server, before.bet_of_option(server, other)).is_open,
    ensures
        before.stake_refused(server, other, user, numerator, denominator) == Some(
            Failure::MultiOpt(seq![taken]),
        ),
{
    lemma_held_on_one(before, server, taken, other, user);
}

/// Once a bet has been torn down, by calling it off or by settling it,
/// whatever would act on it is refused as if the bet were not there: a
/// stake on any of its options, locking it, calling it off, settling it.
pub proof fn law_torn_down_refuses(
    before: Ledger,
    server: Text,
    bet: Text,
    credits: Seq<Credit>,
    option: Text,
    user: Text,
    numerator: nat,
    denominator: nat,
)
    requires
        before.wf(),
        before.is_live(server, bet),
    ensures
        before.tear_down(server, bet, credits).wf(),
        before.tear_down(server, bet, credits).is_torn_down(server, bet),
        !before.tear_down(server, bet, credits).is_live(server, bet),
        before.tear_down(server, bet, credits).abort_refused(server, bet) == Some(
            Failure::NotFound,
        ),
        before.tear_down(server, bet, credits).bet_of_option(server, option) == bet ==> {
            &&& before.tear_down(server, bet, credits).stake_refused(
                server,
                option,
                user,
                numerator,
                denominator,
            ) == Some(Failure::NotFound)
            &&& before.tear_down(server, bet, credits).close_refused(server, option) == Some(
                Failure::NotFound,
            )
        },
{
    lemma_tear_down_wf(before, server, bet, credits);
    lemma_marked_push(before.tombstones, Tombstone { server, bet }, server, bet);
}

/// No operation but a reset takes the mark off a bet that is torn down, and
/// a reset removes the bet itself: the bet never comes to be live again.
pub proof fn law_torn_down_stays(
    before: Ledger,
    server: Text,
    bet: Text,
    other_server: Text,
    key: Text,
    user: Text,
    amount: nat,
    desc: Text,
    options: Seq<Text>,
    options_desc: Seq<Text>,
    credits: Seq<Credit>,
)
    requires
        before.wf(),
        before.is_torn_down(server, bet),
    ensures
        before.create_account(other_server, user, amount).is_torn_down(server, bet),
        before.income(amount).is_torn_down(server, bet),
        before.create_bet(other_server, key, desc, options, options_desc).is_torn_down(server, bet),
        before.stake(other_server, key, user, amount).is_torn_down(server, bet),
        before.lock_bet(other_server, key).is_torn_down(server, bet),
        before.tear_down(other_server, key, credits).is_torn_down(server, bet),
        !before.reset(other_server, amount).is_live(server, bet),
{
    lemma_marked_push(before.tombstones, Tombstone { server: other_server, bet: key }, server, bet);
    let after = before.reset(other_server, amount);
    let bets = before.bets;
    let gone = |b: Bet| b.server == other_server && b.is_open;
    if has_bet(after.bets, server, bet) {
        let k = choose|k: int| bet_at(after.bets, k, server, bet);
        let i = lemma_filter_origin(before.bets, |b: Bet| !gone(b), k);
        assert(bet_at(before.bets, i, server, bet));
        lemma_bet_found(before.bets, i, server, bet);
        let mark = choose|t: int| tombstone_at(before.tombstones, t, server, bet);
        let kept = lemma_filter_has(
            before.tombstones,
            |t: Tombstone| !gone(bet_row(bets, t.server, t.bet)),
            mark,
        );
        assert(tombstone_at(after.tombstones, kept, server, bet));
    }
}

/// Every record of calling a bet off is of another user, and tells what
/// the account of that user holds once the bet is called off.
pub proof fn law_abort_updates_tell_balances(ledger: Ledger, server: Text, bet: Text, k: int)
    requires
        ledger.wf(),
        0 <= k < ledger.abort_updates(server, bet).len(),
    ensures
        one_credit_each(ledger.refunds(server, bet)),
        ledger.abort_updates(server, bet)[k].user == ledger.refunds(server, bet)[k].user,
        ledger.abort_updates(server, bet)[k].diff == ledger.refunds(server, bet)[k].amount,
        ledger.abort_updates(server, bet)[k].balance == ledger.abort_bet(server, bet).balance_of(
            server,
            ledger.abort_updates(server, bet)[k].user,
        ),
{
    let options = ledger.options;
    let credits = ledger.refunds(server, bet);
    lemma_refunds_one_each(ledger, server, bet);
    lemma_filtered_have_accounts(ledger, |w: Wager| wager_in(options, w, server, bet), k);
    ledger.wagers.lemma_filter_pred(|w: Wager| wager_in(options, w, server, bet), k);
    lemma_credit_all_balance(ledger.accounts, server, credits, credits[k].user);
    lemma_credited_once(credits, k);
}

/// Every record of settling a bet is of another user, and tells what the
/// account of that user holds once the bet is settled.
pub proof fn law_close_updates_tell_balances(ledger: Ledger, server: Text, option: Text, k: int)
    requires
        ledger.wf(),
        0 <= k < ledger.close_updates(server, option).len(),
    ensures
        one_credit_each(ledger.winnings(server, option)),
        ledger.close_updates(server, option)[k].user == ledger.winners(server, option)[k].user,
        ledger.close_updates(server, option)[k].balance == ledger.close_bet(
            server,
            option,
        ).balance_of(server, ledger.close_updates(server, option)[k].user),
{
    let credits = ledger.winnings(server, option);
    lemma_winnings_one_each(ledger, server, option);
    lemma_filtered_have_accounts(ledger, |w: Wager| wager_on(w, server, option), k);
    ledger.wagers.lemma_filter_pred(|w: Wager| wager_on(w, server, option), k);
    lemma_credit_all_balance(ledger.accounts, server, credits, credits[k].user);
    lemma_credited_once(credits, k);
}

/// Removing the bets that are torn down changes nothing that can be asked
/// of the ledger about money or about which bets can be acted on: the
/// accounts are as they were, what is at stake is as it was, for all and for
/// every user, and a bet is live if it was.
pub proof fn law_purge_changes_nothing(before: Ledger, server: Text, bet: Text, user: Text)
    requires
        before.wf(),
    ensures
        before.purge().wf(),
        before.purge().accounts == before.accounts,
        before.purge().at_stake() == before.at_stake(),
        before.purge().money() == before.money(),
        before.purge().in_bet(server, user) == before.in_bet(server, user),
        before.purge().is_live(server, bet) == before.is_live(server, bet),
        !before.purge().is_torn_down(server, bet),
{
    let after = before.purge();
    let bets = before.bets;
    let options = before.options;
    let tombstones = before.tombstones;
    let gone = |b: Bet| marked(tombstones, b.server, b.bet);
    let live = |w: Wager| wager_live(options, tombstones, w);
    lemma_purge_wf(before);
    lemma_purge_rows(before);
    // no mark is left
    let keep_mark = |t: Tombstone| !gone(bet_row(bets, t.server, t.bet));
    if after.tombstones.len() > 0 {
        let i = lemma_filter_origin(before.tombstones, keep_mark, 0);
        assert(tombstone_at(tombstones, i, tombstones[i].server, tombstones[i].bet));
    }
    assert forall|s: Text, b: Text| !(#[trigger] marked(after.tombstones, s, b)) by {
        if marked(after.tombstones, s, b) {
            let i = choose|i: int| tombstone_at(after.tombstones, i, s, b);
        }
    }
    // the wagers that are left are the live ones
    let keep_wager = |w: Wager| !gone(bet_row(bets, w.server, owner(options, w.server, w.option)));
    lemma_filter_same(before.wagers, keep_wager, live);
    let after_options = after.options;
    let after_tombstones = after.tombstones;
    lemma_stakes_filtered(
        before.wagers,
        live,
        |w: Wager| wager_live(after_options, after_tombstones, w),
        live,
    );
    lemma_stakes_filtered(
        before.wagers,
        live,
        |w: Wager|
            w.server == server && w.user == user && wager_live(after_options, after_tombstones, w),
        |w: Wager| w.server == server && w.user == user && wager_live(options, tombstones, w),
    );
    // the bets that are left are the live ones
    let keep = |b: Bet| !gone(b);
    if before.is_live(server, bet) {
        let i = bet_index(before.bets, server, bet);
        assert(bet_at(before.bets, i, server, bet));
        let k = lemma_filter_has(before.bets, keep, i);
        assert(bet_at(after.bets, k, server, bet));
    }
    if after.is_live(server, bet) {
        let k = bet_index(after.bets, server, bet);
        assert(bet_at(after.bets, k, server, bet));
        let i = lemma_filter_origin(before.bets, keep, k);
        assert(bet_at(before.bets, i, server, bet));
    }
}

} // verus!
