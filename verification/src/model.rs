//! The ledger as a mathematical object: five tables of rows, the constraints
//! that hold between them, the questions that can be asked of them, and what
//! each operation makes of them.

use crate::utils::{allocation, sum};
use vstd::prelude::*;

verus! {

/// An identifier or a description: a sequence of characters that the ledger
/// compares and never interprets.
pub type Text = Seq<char>;

/// The largest amount that a balance or a stake can hold.
pub open spec fn max_amount() -> nat {
    0xFFFF_FFFF
}

/// A user's balance within one server.
pub struct Account {
    pub server: Text,
    pub user: Text,
    pub balance: nat,
}

/// A bet: a described event that is open to wagers until it is locked.
pub struct Bet {
    pub server: Text,
    pub bet: Text,
    pub desc: Text,
    pub is_open: bool,
}

/// One possible outcome of a bet.
pub struct BetOption {
    pub server: Text,
    pub option: Text,
    pub bet: Text,
    pub desc: Text,
}

/// A user's stake on one option.
pub struct Wager {
    pub server: Text,
    pub option: Text,
    pub user: Text,
    pub amount: nat,
}

/// The mark that a bet has been settled or called off: whoever would act on
/// the bet finds the mark and treats the bet as gone, whether or not its rows
/// have been removed yet.
pub struct Tombstone {
    pub server: Text,
    pub bet: Text,
}

/// A credit to a user's account.
pub struct Credit {
    pub user: Text,
    pub amount: nat,
}

/// The record of one change to one account.
pub struct Update {
    pub server: Text,
    pub user: Text,
    pub diff: int,
    pub balance: nat,
}

/// An option as shown to a reader: what it says and who staked how much on it.
pub struct OptionView {
    pub option: Text,
    pub desc: Text,
    pub wagers: Seq<(Text, nat)>,
}

/// A bet as shown to a reader.
pub struct BetView {
    pub bet: Text,
    pub desc: Text,
    pub options: Seq<OptionView>,
}

/// An account as shown to a reader: what it holds and what it has at stake.
pub struct Standing {
    pub user: Text,
    pub balance: nat,
    pub in_bet: nat,
}

/// What went wrong in the store underneath the ledger, as far as the ledger
/// tells failures apart.
#[derive(Debug, Clone, Copy, PartialEq, Eq, Structural)]
pub enum StoreError {
    /// The store refused a statement, with its extended result code.
    SqliteFailure(i32),
    /// A query for one row found none.
    QueryReturnedNoRows,
    /// An amount does not fit where it is to be kept.
    IntegralValueOutOfRange,
    /// Any other failure.
    Other,
}

/// Why an operation was refused.
pub enum Failure {
    /// The user already holds wagers on these other options of the bet.
    MultiOpt(Seq<Text>),
    /// The bet, option or account is absent, or the bet is torn down.
    NotFound,
    /// The stake comes to nothing.
    NotEnoughMoney,
    /// The bet no longer takes wagers.
    BetLocked,
    /// The account, bet or option exists already.
    AlreadyExists,
    /// The store failed in a way that is not one of the above.
    InternalError(StoreError),
}

/// The extended result code with which the store reports a second row under
/// one primary key.
pub const PRIMARY_KEY_TAKEN: i32 = 1555;

/// The whole state of the ledger.
pub struct Ledger {
    pub accounts: Seq<Account>,
    pub bets: Seq<Bet>,
    pub options: Seq<BetOption>,
    pub wagers: Seq<Wager>,
    pub tombstones: Seq<Tombstone>,
}

/// The least whole amount that is no less than `numerator / denominator` of
/// `balance`.
pub open spec fn stake_amount(balance: nat, numerator: nat, denominator: nat) -> nat {
    ((balance * numerator + denominator - 1) / (denominator as int)) as nat
}

// -------------------------------------------------------------------- accounts

/// Row `i` is the account of `user` in `server`.
pub open spec fn account_at(accounts: Seq<Account>, i: int, server: Text, user: Text) -> bool {
    0 <= i < accounts.len() && accounts[i].server == server && accounts[i].user == user
}

/// There is an account of `user` in `server`.
pub open spec fn has_account(accounts: Seq<Account>, server: Text, user: Text) -> bool {
    exists|i: int| account_at(accounts, i, server, user)
}

/// The row of the account of `user` in `server`.
pub open spec fn account_index(accounts: Seq<Account>, server: Text, user: Text) -> int {
    choose|i: int| account_at(accounts, i, server, user)
}

/// The balance of the account of `user` in `server`.
pub open spec fn balance_of(accounts: Seq<Account>, server: Text, user: Text) -> nat {
    accounts[account_index(accounts, server, user)].balance
}

/// No two accounts share server and user.
pub open spec fn accounts_unique(accounts: Seq<Account>) -> bool {
    forall|i: int, j: int|
        #![trigger accounts[i], accounts[j]]
        0 <= i < j < accounts.len() ==> !(accounts[i].server == accounts[j].server
            && accounts[i].user == accounts[j].user)
}

/// Every balance fits an account.
pub open spec fn fits(accounts: Seq<Account>) -> bool {
    forall|i: int| 0 <= i < accounts.len() ==> (#[trigger] accounts[i]).balance <= max_amount()
}

/// The accounts after `amount` has been added to the balance of `user` in
/// `server`.
pub open spec fn credit(accounts: Seq<Account>, server: Text, user: Text, amount: nat) -> Seq<
    Account,
> {
    accounts.map_values(
        |a: Account|
            if a.server == server && a.user == user {
                Account { balance: a.balance + amount, ..a }
            } else {
                a
            },
    )
}

/// The accounts after every credit of `credits` has been made in `server`,
/// one after the other.
pub open spec fn credit_all(accounts: Seq<Account>, server: Text, credits: Seq<Credit>) -> Seq<
    Account,
>
    decreases credits.len(),
{
    if credits.len() == 0 {
        accounts
    } else {
        credit(
            credit_all(accounts, server, credits.drop_last()),
            server,
            credits.last().user,
            credits.last().amount,
        )
    }
}

/// The sum of all balances.
pub open spec fn deposits(accounts: Seq<Account>) -> nat {
    sum(accounts.map_values(|a: Account| a.balance))
}

/// The sum of all credited amounts.
pub open spec fn credits_total(credits: Seq<Credit>) -> nat {
    sum(credits.map_values(|c: Credit| c.amount))
}

/// What the credits of `credits` to `user` come to.
pub open spec fn credited_to(credits: Seq<Credit>, user: Text) -> nat {
    sum(
        credits.map_values(
            |c: Credit|
                if c.user == user {
                    c.amount
                } else {
                    0
                },
        ),
    )
}

/// No two credits are to one user.
pub open spec fn one_credit_each(credits: Seq<Credit>) -> bool {
    forall|i: int, j: int|
        #![trigger credits[i], credits[j]]
        0 <= i < j < credits.len() ==> credits[i].user != credits[j].user
}

/// The records of paying `credits` in `server`: one for each credit, in
/// order, with what the account held before plus what it is paid.
pub open spec fn credit_updates(accounts: Seq<Account>, server: Text, credits: Seq<Credit>) -> Seq<
    Update,
> {
    credits.map_values(
        |c: Credit|
            Update {
                server,
                user: c.user,
                diff: c.amount as int,
                balance: balance_of(accounts, server, c.user) + c.amount,
            },
    )
}

// -------------------------------------------------------------------- bets

/// Row `i` is the bet `bet` of `server`.
pub open spec fn bet_at(bets: Seq<Bet>, i: int, server: Text, bet: Text) -> bool {
    0 <= i < bets.len() && bets[i].server == server && bets[i].bet == bet
}

/// There is a bet `bet` in `server`.
pub open spec fn has_bet(bets: Seq<Bet>, server: Text, bet: Text) -> bool {
    exists|i: int| bet_at(bets, i, server, bet)
}

/// The row of the bet `bet` of `server`.
pub open spec fn bet_index(bets: Seq<Bet>, server: Text, bet: Text) -> int {
    choose|i: int| bet_at(bets, i, server, bet)
}

/// The row of the bet `bet` of `server`.
pub open spec fn bet_row(bets: Seq<Bet>, server: Text, bet: Text) -> Bet {
    bets[bet_index(bets, server, bet)]
}

/// No two bets share server and bet identifier.
pub open spec fn bets_unique(bets: Seq<Bet>) -> bool {
    forall|i: int, j: int|
        #![trigger bets[i], bets[j]]
        0 <= i < j < bets.len() ==> !(bets[i].server == bets[j].server && bets[i].bet
            == bets[j].bet)
}

// -------------------------------------------------------------------- options

/// Row `i` is the option `option` of `server`.
pub open spec fn option_at(options: Seq<BetOption>, i: int, server: Text, option: Text) -> bool {
    0 <= i < options.len() && options[i].server == server && options[i].option == option
}

/// There is an option `option` in `server`.
pub open spec fn has_option(options: Seq<BetOption>, server: Text, option: Text) -> bool {
    exists|i: int| option_at(options, i, server, option)
}

/// The row of the option `option` of `server`.
pub open spec fn option_index(options: Seq<BetOption>, server: Text, option: Text) -> int {
    choose|i: int| option_at(options, i, server, option)
}

/// The bet that the option `option` of `server` belongs to.
pub open spec fn owner(options: Seq<BetOption>, server: Text, option: Text) -> Text {
    options[option_index(options, server, option)].bet
}

/// No two options share server and option identifier.
pub open spec fn options_unique(options: Seq<BetOption>) -> bool {
    forall|i: int, j: int|
        #![trigger options[i], options[j]]
        0 <= i < j < options.len() ==> !(options[i].server == options[j].server
            && options[i].option == options[j].option)
}

/// Every option belongs to a bet that exists.
pub open spec fn options_refer(bets: Seq<Bet>, options: Seq<BetOption>) -> bool {
    forall|i: int|
        0 <= i < options.len() ==> has_bet(bets, (#[trigger] options[i]).server, options[i].bet)
}

/// The option belongs to the bet `bet` of `server`.
pub open spec fn option_in(o: BetOption, server: Text, bet: Text) -> bool {
    o.server == server && o.bet == bet
}

// -------------------------------------------------------------------- wagers

/// Row `i` is the wager of `user` on the option `option` of `server`.
pub open spec fn wager_at(
    wagers: Seq<Wager>,
    i: int,
    server: Text,
    option: Text,
    user: Text,
) -> bool {
    0 <= i < wagers.len() && wagers[i].server == server && wagers[i].option == option
        && wagers[i].user == user
}

/// There is a wager of `user` on the option `option` of `server`.
pub open spec fn has_wager(wagers: Seq<Wager>, server: Text, option: Text, user: Text) -> bool {
    exists|i: int| wager_at(wagers, i, server, option, user)
}

/// The row of the wager of `user` on the option `option` of `server`.
pub open spec fn wager_index(wagers: Seq<Wager>, server: Text, option: Text, user: Text) -> int {
    choose|i: int| wager_at(wagers, i, server, option, user)
}

/// What `user` has staked on the option `option` of `server`: nothing where
/// there is no wager.
pub open spec fn staked_on(wagers: Seq<Wager>, server: Text, option: Text, user: Text) -> nat {
    if has_wager(wagers, server, option, user) {
        wagers[wager_index(wagers, server, option, user)].amount
    } else {
        0
    }
}

/// No two wagers share server, option and user.
pub open spec fn wagers_unique(wagers: Seq<Wager>) -> bool {
    forall|i: int, j: int|
        #![trigger wagers[i], wagers[j]]
        0 <= i < j < wagers.len() ==> !(wagers[i].server == wagers[j].server && wagers[i].option
            == wagers[j].option && wagers[i].user == wagers[j].user)
}

/// Every wager is on an option that exists, by a user who has an account,
/// and of a positive amount.
pub open spec fn wagers_refer(
    accounts: Seq<Account>,
    options: Seq<BetOption>,
    wagers: Seq<Wager>,
) -> bool {
    forall|i: int|
        0 <= i < wagers.len() ==> {
            &&& has_option(options, (#[trigger] wagers[i]).server, wagers[i].option)
            &&& has_account(accounts, wagers[i].server, wagers[i].user)
            &&& wagers[i].amount > 0
        }
}

/// No user has wagers on two options of one bet.
pub open spec fn one_option_per_bet(options: Seq<BetOption>, wagers: Seq<Wager>) -> bool {
    forall|i: int, j: int|
        #![trigger wagers[i], wagers[j]]
        0 <= i < wagers.len() && 0 <= j < wagers.len() && wagers[i].server == wagers[j].server
            && wagers[i].user == wagers[j].user && owner(
            options,
            wagers[i].server,
            wagers[i].option,
        ) == owner(options, wagers[j].server, wagers[j].option) ==> wagers[i].option
            == wagers[j].option
}

/// The wager is on the option `option` of `server`.
pub open spec fn wager_on(w: Wager, server: Text, option: Text) -> bool {
    w.server == server && w.option == option
}

/// The wager is on an option of the bet `bet` of `server`.
pub open spec fn wager_in(options: Seq<BetOption>, w: Wager, server: Text, bet: Text) -> bool {
    w.server == server && owner(options, server, w.option) == bet
}

/// The sum of what the wagers that meet `chosen` hold.
pub open spec fn stakes(wagers: Seq<Wager>, chosen: spec_fn(Wager) -> bool) -> nat {
    sum(
        wagers.map_values(
            |w: Wager|
                if chosen(w) {
                    w.amount
                } else {
                    0
                },
        ),
    )
}

/// Who staked how much on an option, in table order.
pub open spec fn wagers_on(wagers: Seq<Wager>, server: Text, option: Text) -> Seq<(Text, nat)> {
    wagers.filter(|w: Wager| wager_on(w, server, option)).map_values(
        |w: Wager| (w.user, w.amount),
    )
}

/// An option with its wagers.
pub open spec fn option_view(wagers: Seq<Wager>, o: BetOption) -> OptionView {
    OptionView { option: o.option, desc: o.desc, wagers: wagers_on(wagers, o.server, o.option) }
}

/// The option is another option of the same bet as `option`, and `user` has
/// a wager on it.
pub open spec fn held_by(
    options: Seq<BetOption>,
    wagers: Seq<Wager>,
    o: BetOption,
    server: Text,
    option: Text,
    user: Text,
) -> bool {
    &&& option_in(o, server, owner(options, server, option))
    &&& o.option != option
    &&& has_wager(wagers, server, o.option, user)
}

// -------------------------------------------------------------------- tombstones

/// Row `i` marks the bet `bet` of `server`.
pub open spec fn tombstone_at(tombstones: Seq<Tombstone>, i: int, server: Text, bet: Text) -> bool {
    0 <= i < tombstones.len() && tombstones[i].server == server && tombstones[i].bet == bet
}

/// The bet `bet` of `server` is marked as torn down.
pub open spec fn marked(tombstones: Seq<Tombstone>, server: Text, bet: Text) -> bool {
    exists|i: int| tombstone_at(tombstones, i, server, bet)
}

/// No bet is marked twice.
pub open spec fn tombstones_unique(tombstones: Seq<Tombstone>) -> bool {
    forall|i: int, j: int|
        #![trigger tombstones[i], tombstones[j]]
        0 <= i < j < tombstones.len() ==> !(tombstones[i].server == tombstones[j].server
            && tombstones[i].bet == tombstones[j].bet)
}

/// Every tombstone marks a bet that exists.
pub open spec fn tombstones_refer(bets: Seq<Bet>, tombstones: Seq<Tombstone>) -> bool {
    forall|i: int|
        0 <= i < tombstones.len() ==> has_bet(
            bets,
            (#[trigger] tombstones[i]).server,
            tombstones[i].bet,
        )
}

/// The wager is on a bet that has not been torn down.
pub open spec fn wager_live(options: Seq<BetOption>, tombstones: Seq<Tombstone>, w: Wager) -> bool {
    !marked(tombstones, w.server, owner(options, w.server, w.option))
}

// -------------------------------------------------------------------- the ledger

impl Ledger {
    /// The ledger with no rows.
    pub open spec fn empty() -> Ledger {
        Ledger {
            accounts: Seq::empty(),
            bets: Seq::empty(),
            options: Seq::empty(),
            wagers: Seq::empty(),
            tombstones: Seq::empty(),
        }
    }

    /// The constraints that every ledger meets: keys are unique, references
    /// lead to rows that exist, stakes are positive, and nobody is on two
    /// sides of one bet.
    pub open spec fn wf(self) -> bool {
        &&& accounts_unique(self.accounts)
        &&& bets_unique(self.bets)
        &&& options_unique(self.options)
        &&& wagers_unique(self.wagers)
        &&& tombstones_unique(self.tombstones)
        &&& options_refer(self.bets, self.options)
        &&& wagers_refer(self.accounts, self.options, self.wagers)
        &&& tombstones_refer(self.bets, self.tombstones)
        &&& one_option_per_bet(self.options, self.wagers)
    }

    // ---------------------------------------------------------------- questions

    /// There is an account of `user` in `server`.
    pub open spec fn has_account(self, server: Text, user: Text) -> bool {
        has_account(self.accounts, server, user)
    }

    /// The balance of the account of `user` in `server`.
    pub open spec fn balance_of(self, server: Text, user: Text) -> nat {
        balance_of(self.accounts, server, user)
    }

    /// There is a bet `bet` in `server`.
    pub open spec fn has_bet(self, server: Text, bet: Text) -> bool {
        has_bet(self.bets, server, bet)
    }

    /// The row of the bet `bet` of `server`.
    pub open spec fn bet_row(self, server: Text, bet: Text) -> Bet {
        bet_row(self.bets, server, bet)
    }

    /// There is an option `option` in `server`.
    pub open spec fn has_option(self, server: Text, option: Text) -> bool {
        has_option(self.options, server, option)
    }

    /// The bet that the option `option` of `server` belongs to.
    pub open spec fn bet_of_option(self, server: Text, option: Text) -> Text {
        owner(self.options, server, option)
    }

    /// There is a wager of `user` on the option `option` of `server`.
    pub open spec fn has_wager(self, server: Text, option: Text, user: Text) -> bool {
        has_wager(self.wagers, server, option, user)
    }

    /// What `user` has staked on the option `option` of `server`.
    pub open spec fn staked_on(self, server: Text, option: Text, user: Text) -> nat {
        staked_on(self.wagers, server, option, user)
    }

    /// The bet `bet` of `server` has been settled or called off.
    pub open spec fn is_torn_down(self, server: Text, bet: Text) -> bool {
        marked(self.tombstones, server, bet)
    }

    /// The bet `bet` of `server` exists and can still be acted on.
    pub open spec fn is_live(self, server: Text, bet: Text) -> bool {
        self.has_bet(server, bet) && !self.is_torn_down(server, bet)
    }

    /// The identifiers of the options of a bet, in table order.
    pub open spec fn options_of_bet(self, server: Text, bet: Text) -> Seq<Text> {
        self.options.filter(|o: BetOption| option_in(o, server, bet)).map_values(
            |o: BetOption| o.option,
        )
    }

    /// A bet with its options and their wagers.
    pub open spec fn bet_view(self, server: Text, bet: Text) -> BetView {
        let wagers = self.wagers;
        BetView {
            bet,
            desc: self.bet_row(server, bet).desc,
            options: self.options.filter(|o: BetOption| option_in(o, server, bet)).map_values(
                |o: BetOption| option_view(wagers, o),
            ),
        }
    }

    /// The other options of the bet of `option` on which `user` has a wager.
    pub open spec fn held_elsewhere(self, server: Text, option: Text, user: Text) -> Seq<Text> {
        let options = self.options;
        let wagers = self.wagers;
        self.options.filter(
            |o: BetOption| held_by(options, wagers, o, server, option, user),
        ).map_values(|o: BetOption| o.option)
    }

    /// The pool of a bet: the sum of the wagers on all its options.
    pub open spec fn pool(self, server: Text, bet: Text) -> nat {
        let options = self.options;
        stakes(self.wagers, |w: Wager| wager_in(options, w, server, bet))
    }

    /// What is at stake in all the bets that have not been torn down.
    pub open spec fn at_stake(self) -> nat {
        let options = self.options;
        let tombstones = self.tombstones;
        stakes(self.wagers, |w: Wager| wager_live(options, tombstones, w))
    }

    /// All the money there is: what the accounts hold and what is at stake.
    pub open spec fn money(self) -> nat {
        deposits(self.accounts) + self.at_stake()
    }

    /// What `user` has at stake in the bets of `server` that have not been
    /// torn down.
    pub open spec fn in_bet(self, server: Text, user: Text) -> nat {
        let options = self.options;
        let tombstones = self.tombstones;
        stakes(
            self.wagers,
            |w: Wager| w.server == server && w.user == user && wager_live(options, tombstones, w),
        )
    }

    /// The accounts of a server with what each has at stake, in table order.
    pub open spec fn standings(self, server: Text) -> Seq<Standing> {
        self.accounts.filter(|a: Account| a.server == server).map_values(
            |a: Account|
                Standing { user: a.user, balance: a.balance, in_bet: self.in_bet(server, a.user) },
        )
    }

    // ---------------------------------------------------------------- operations

    /// The ledger with one more account.
    pub open spec fn create_account(self, server: Text, user: Text, amount: nat) -> Ledger {
        Ledger { accounts: self.accounts.push(Account { server, user, balance: amount }), ..self }
    }

    /// The ledger after `amount` has been added to every balance.
    pub open spec fn income(self, amount: nat) -> Ledger {
        Ledger {
            accounts: self.accounts.map_values(
                |a: Account| Account { balance: a.balance + amount, ..a },
            ),
            ..self
        }
    }

    /// The records of an income of `amount`: one for each account, in table
    /// order.
    pub open spec fn income_updates(self, amount: nat) -> Seq<Update> {
        self.accounts.map_values(
            |a: Account|
                Update {
                    server: a.server,
                    user: a.user,
                    diff: amount as int,
                    balance: a.balance + amount,
                },
        )
    }

    /// An income of `amount` cannot be paid: some balance would no longer
    /// fit its account.
    pub open spec fn income_refused(self, amount: nat) -> bool {
        !fits(self.income(amount).accounts)
    }

    /// The standings of a server cannot be told: what some account of the
    /// server has at stake is more than an amount can be.
    pub open spec fn standings_refused(self, server: Text) -> bool {
        exists|i: int|
            0 <= i < self.accounts.len() && (#[trigger] self.accounts[i]).server == server
                && self.in_bet(server, self.accounts[i].user) > max_amount()
    }

    /// The ledger without the bets that `gone` takes away, and without all
    /// that hung on them: their options, the wagers on these, and their marks.
    pub open spec fn without(self, gone: spec_fn(Bet) -> bool) -> Ledger {
        let bets = self.bets;
        let options = self.options;
        Ledger {
            accounts: self.accounts,
            bets: self.bets.filter(|b: Bet| !gone(b)),
            options: self.options.filter(
                |o: BetOption| !gone(bet_row(bets, o.server, o.bet)),
            ),
            wagers: self.wagers.filter(
                |w: Wager| !gone(bet_row(bets, w.server, owner(options, w.server, w.option))),
            ),
            tombstones: self.tombstones.filter(
                |t: Tombstone| !gone(bet_row(bets, t.server, t.bet)),
            ),
        }
    }

    /// The ledger after a server has been reset: its open bets are gone with
    /// all that hung on them, and every one of its accounts holds `amount`.
    pub open spec fn reset(self, server: Text, amount: nat) -> Ledger {
        Ledger {
            accounts: self.accounts.map_values(
                |a: Account|
                    if a.server == server {
                        Account { balance: amount, ..a }
                    } else {
                        a
                    },
            ),
            ..self.without(|b: Bet| b.server == server && b.is_open)
        }
    }

    /// The ledger after the bets that are torn down have been removed with
    /// all that hung on them, their marks too.
    pub open spec fn purge(self) -> Ledger {
        let tombstones = self.tombstones;
        self.without(|b: Bet| marked(tombstones, b.server, b.bet))
    }

    /// A new bet cannot be entered: the bet exists, one of the options
    /// exists, or an option is named twice.
    pub open spec fn bet_collides(self, server: Text, bet: Text, options: Seq<Text>) -> bool {
        ||| self.has_bet(server, bet)
        ||| exists|k: int| 0 <= k < options.len() && self.has_option(server, #[trigger] options[k])
        ||| !options.no_duplicates()
    }

    /// The ledger with one more bet, open, and its options.
    pub open spec fn create_bet(
        self,
        server: Text,
        bet: Text,
        desc: Text,
        options: Seq<Text>,
        options_desc: Seq<Text>,
    ) -> Ledger {
        Ledger {
            bets: self.bets.push(Bet { server, bet, desc, is_open: true }),
            options: self.options + Seq::new(
                options.len(),
                |k: int| BetOption { server, option: options[k], bet, desc: options_desc[k] },
            ),
            ..self
        }
    }

    /// The ledger after `user` has moved `amount` from the account to the
    /// option: a first stake makes a wager, a later one adds to it.
    pub open spec fn stake(self, server: Text, option: Text, user: Text, amount: nat) -> Ledger {
        Ledger {
            accounts: self.accounts.map_values(
                |a: Account|
                    if a.server == server && a.user == user {
                        Account { balance: (a.balance - amount) as nat, ..a }
                    } else {
                        a
                    },
            ),
            wagers: if self.has_wager(server, option, user) {
                self.wagers.map_values(
                    |w: Wager|
                        if w.server == server && w.option == option && w.user == user {
                            Wager { amount: w.amount + amount, ..w }
                        } else {
                            w
                        },
                )
            } else {
                self.wagers.push(Wager { server, option, user, amount })
            },
            ..self
        }
    }

    /// The record of a stake of `amount` by `user` in `server`.
    pub open spec fn stake_update(self, server: Text, user: Text, amount: nat) -> Update {
        Update {
            server,
            user,
            diff: -(amount as int),
            balance: (self.balance_of(server, user) - amount) as nat,
        }
    }

    /// Why `user` cannot stake `numerator / denominator` of the balance on
    /// the option `option` of `server`, if anything stands against it. The
    /// reasons are looked for in this order: the option is absent or its bet
    /// is torn down; the bet is locked; the user is on another option of the
    /// bet; the user has no account; the stake comes to nothing; the wager
    /// would no longer fit.
    pub open spec fn stake_refused(
        self,
        server: Text,
        option: Text,
        user: Text,
        numerator: nat,
        denominator: nat,
    ) -> Option<Failure> {
        let bet = self.bet_of_option(server, option);
        let amount = stake_amount(self.balance_of(server, user), numerator, denominator);
        if !self.has_option(server, option) || self.is_torn_down(server, bet) {
            Some(Failure::NotFound)
        } else if !self.bet_row(server, bet).is_open {
            Some(Failure::BetLocked)
        } else if self.held_elsewhere(server, option, user).len() > 0 {
            Some(Failure::MultiOpt(self.held_elsewhere(server, option, user)))
        } else if !self.has_account(server, user) {
            Some(Failure::NotFound)
        } else if amount == 0 {
            Some(Failure::NotEnoughMoney)
        } else if self.staked_on(server, option, user) + amount > max_amount() {
            Some(Failure::InternalError(StoreError::IntegralValueOutOfRange))
        } else {
            None
        }
    }

    /// The ledger after a bet has been locked.
    pub open spec fn lock_bet(self, server: Text, bet: Text) -> Ledger {
        Ledger {
            bets: self.bets.map_values(
                |b: Bet|
                    if b.server == server && b.bet == bet {
                        Bet { is_open: false, ..b }
                    } else {
                        b
                    },
            ),
            ..self
        }
    }

    /// What calling off a bet gives back: every wager of the bet to its
    /// owner, in table order.
    pub open spec fn refunds(self, server: Text, bet: Text) -> Seq<Credit> {
        let options = self.options;
        self.wagers.filter(|w: Wager| wager_in(options, w, server, bet)).map_values(
            |w: Wager| Credit { user: w.user, amount: w.amount },
        )
    }

    /// The wagers on an option, in table order.
    pub open spec fn winners(self, server: Text, option: Text) -> Seq<Wager> {
        self.wagers.filter(|w: Wager| wager_on(w, server, option))
    }

    /// What settling a bet on `option` pays: the pool of the bet, allocated
    /// among the wagers on `option` in proportion to their amounts.
    pub open spec fn winnings(self, server: Text, option: Text) -> Seq<Credit> {
        let winners = self.winners(server, option);
        let gains = allocation(
            self.pool(server, self.bet_of_option(server, option)),
            winners.map_values(|w: Wager| w.amount),
        );
        Seq::new(winners.len(), |k: int| Credit { user: winners[k].user, amount: gains[k] })
    }

    /// The ledger after `credits` have been paid in `server` and the bet
    /// `bet` has been marked as torn down.
    pub open spec fn tear_down(self, server: Text, bet: Text, credits: Seq<Credit>) -> Ledger {
        Ledger {
            accounts: credit_all(self.accounts, server, credits),
            tombstones: self.tombstones.push(Tombstone { server, bet }),
            ..self
        }
    }

    /// Why the bet `bet` of `server` cannot be called off, if anything
    /// stands against it: the bet is absent or torn down, or a refund would
    /// no longer fit its account.
    pub open spec fn abort_refused(self, server: Text, bet: Text) -> Option<Failure> {
        if !self.is_live(server, bet) {
            Some(Failure::NotFound)
        } else if !fits(self.abort_bet(server, bet).accounts) {
            Some(Failure::InternalError(StoreError::IntegralValueOutOfRange))
        } else {
            None
        }
    }

    /// The records of calling off a bet: one for each refund.
    pub open spec fn abort_updates(self, server: Text, bet: Text) -> Seq<Update> {
        credit_updates(self.accounts, server, self.refunds(server, bet))
    }

    /// Why the bet of the option `option` of `server` cannot be settled on
    /// that option, if anything stands against it: the option is absent or
    /// its bet is torn down, or the pool or what an account would hold is
    /// more than an amount can be.
    pub open spec fn close_refused(self, server: Text, option: Text) -> Option<Failure> {
        let bet = self.bet_of_option(server, option);
        if !self.has_option(server, option) || self.is_torn_down(server, bet) {
            Some(Failure::NotFound)
        } else if self.pool(server, bet) > max_amount() || !fits(
            self.close_bet(server, option).accounts,
        ) {
            Some(Failure::InternalError(StoreError::IntegralValueOutOfRange))
        } else {
            None
        }
    }

    /// The records of settling a bet: one for each winner.
    pub open spec fn close_updates(self, server: Text, option: Text) -> Seq<Update> {
        credit_updates(self.accounts, server, self.winnings(server, option))
    }

    /// The ledger after a bet has been called off.
    pub open spec fn abort_bet(self, server: Text, bet: Text) -> Ledger {
        self.tear_down(server, bet, self.refunds(server, bet))
    }

    /// The ledger after a bet has been settled on `option`.
    pub open spec fn close_bet(self, server: Text, option: Text) -> Ledger {
        self.tear_down(
            server,
            self.bet_of_option(server, option),
            self.winnings(server, option),
        )
    }
}

} // verus!
