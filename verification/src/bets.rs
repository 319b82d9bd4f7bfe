//! The ledger in memory: its tables as vectors of rows, and the operations
//! on them, each held to what the model says of it.

use crate::amount::Fraction;
use crate::lemmas::{
    lemma_account_found, lemma_bet_found, lemma_create_account_wf, lemma_create_bet_wf,
    lemma_credit_all_grows, lemma_credit_all_holders, lemma_credit_all_step, lemma_filter_map_step,
    lemma_filter_none, lemma_filter_step, lemma_filtered_have_accounts, lemma_lock_bet_wf,
    lemma_option_found, lemma_purge_wf, lemma_rebalanced, lemma_reset_wf, lemma_stake_wf,
    lemma_stakes_step, lemma_tear_down_wf, lemma_wager_found,
};
use crate::model::{
    account_at, accounts_unique, bet_at, bet_row, bets_unique, credit_all, credit_updates, fits,
    has_account, has_bet, has_option, held_by, marked, max_amount, one_option_per_bet, option_at,
    option_in, option_index, option_view, options_refer, options_unique, owner, stake_amount,
    stakes, tombstone_at, tombstones_refer, tombstones_unique, wager_at, wager_in, wager_live,
    wager_on, wagers_on, wagers_refer, wagers_unique, Account, Bet, BetOption, BetView, Credit,
    Failure, Ledger, OptionView, Standing, StoreError, Tombstone, Update, Wager, PRIMARY_KEY_TAKEN,
};
use crate::utils::{allocation, lrm, nats};
use vstd::prelude::*;

verus! {

/// A row of the account table.
#[derive(Debug, Clone, PartialEq, Eq)]
pub struct AccountRow {
    pub server: String,
    pub user: String,
    pub balance: u32,
}

/// A row of the bet table.
#[derive(Debug, Clone, PartialEq, Eq)]
pub struct BetRow {
    pub server: String,
    pub bet: String,
    pub desc: String,
    pub is_open: bool,
}

/// A row of the option table.
#[derive(Debug, Clone, PartialEq, Eq)]
pub struct OptionRow {
    pub server: String,
    pub option: String,
    pub bet: String,
    pub desc: String,
}

/// A row of the wager table.
#[derive(Debug, Clone, PartialEq, Eq)]
pub struct WagerRow {
    pub server: String,
    pub option: String,
    pub user: String,
    pub amount: u32,
}

/// A row of the table that marks the bets that are torn down.
#[derive(Debug, Clone, PartialEq, Eq)]
pub struct TombstoneRow {
    pub server: String,
    pub bet: String,
}

impl View for AccountRow {
    type V = Account;

    open spec fn view(&self) -> Account {
        Account { server: self.server@, user: self.user@, balance: self.balance as nat }
    }
}

impl View for BetRow {
    type V = Bet;

    open spec fn view(&self) -> Bet {
        Bet { server: self.server@, bet: self.bet@, desc: self.desc@, is_open: self.is_open }
    }
}

impl View for OptionRow {
    type V = BetOption;

    open spec fn view(&self) -> BetOption {
        BetOption { server: self.server@, option: self.option@, bet: self.bet@, desc: self.desc@ }
    }
}

impl View for WagerRow {
    type V = Wager;

    open spec fn view(&self) -> Wager {
        Wager {
            server: self.server@,
            option: self.option@,
            user: self.user@,
            amount: self.amount as nat,
        }
    }
}

impl View for TombstoneRow {
    type V = Tombstone;

    open spec fn view(&self) -> Tombstone {
        Tombstone { server: self.server@, bet: self.bet@ }
    }
}

/// The record of one change to one account: by how much the balance moved
/// and where it stands.
#[derive(Debug, Clone, PartialEq, Eq)]
pub struct AccountUpdate {
    pub server: String,
    pub user: String,
    pub diff: i64,
    pub balance: u32,
}

impl View for AccountUpdate {
    type V = Update;

    open spec fn view(&self) -> Update {
        Update {
            server: self.server@,
            user: self.user@,
            diff: self.diff as int,
            balance: self.balance as nat,
        }
    }
}

/// An option with the wagers on it, each as user and amount.
#[derive(Debug, Clone, PartialEq, Eq)]
pub struct OptionStatus {
    pub option: String,
    pub desc: String,
    pub wagers: Vec<(String, u32)>,
}

impl View for OptionStatus {
    type V = OptionView;

    open spec fn view(&self) -> OptionView {
        OptionView {
            option: self.option@,
            desc: self.desc@,
            wagers: self.wagers@.map_values(|w: (String, u32)| (w.0@, w.1 as nat)),
        }
    }
}

/// A bet with its options.
#[derive(Debug, Clone, PartialEq, Eq)]
pub struct BetStatus {
    pub bet: String,
    pub desc: String,
    pub options: Vec<OptionStatus>,
}

impl View for BetStatus {
    type V = BetView;

    open spec fn view(&self) -> BetView {
        BetView {
            bet: self.bet@,
            desc: self.desc@,
            options: self.options@.map_values(|o: OptionStatus| o@),
        }
    }
}

/// An account with what it holds and what it has at stake.
#[derive(Debug, Clone, PartialEq, Eq)]
pub struct AccountStatus {
    pub user: String,
    pub balance: u32,
    pub in_bet: u32,
}

impl View for AccountStatus {
    type V = Standing;

    open spec fn view(&self) -> Standing {
        Standing { user: self.user@, balance: self.balance as nat, in_bet: self.in_bet as nat }
    }
}

/// The wagers of a status, each as the text of its user and its amount.
pub open spec fn stake_views(wagers: Seq<(String, u32)>) -> Seq<(Seq<char>, nat)> {
    wagers.map_values(|w: (String, u32)| (w.0@, w.1 as nat))
}

/// The options of a status, each by its view.
pub open spec fn option_views(options: Seq<OptionStatus>) -> Seq<OptionView> {
    options.map_values(|o: OptionStatus| o@)
}

/// The records of a list of changes, each by its view.
pub open spec fn update_views(updates: Seq<AccountUpdate>) -> Seq<Update> {
    updates.map_values(|u: AccountUpdate| u@)
}

/// The credits that a list of users and amounts stands for.
pub open spec fn credit_views(credits: Seq<(String, u32)>) -> Seq<Credit> {
    credits.map_values(|c: (String, u32)| Credit { user: c.0@, amount: c.1 as nat })
}

/// The standings of a list of accounts, each by its view.
pub open spec fn standing_views(accounts: Seq<AccountStatus>) -> Seq<Standing> {
    accounts.map_values(|a: AccountStatus| a@)
}

/// Why an operation was refused.
#[derive(Debug, Clone, PartialEq, Eq)]
pub enum BetError {
    /// The user already holds wagers on these other options of the bet.
    MultiOpt(Vec<String>),
    /// The bet, option or account is absent, or the bet is torn down.
    NotFound,
    /// The stake comes to nothing.
    NotEnoughMoney,
    /// The bet no longer takes wagers.
    BetLocked,
    /// The account, bet or option exists already.
    AlreadyExists,
    /// The store failed in a way that is not one of the above.
    InternalError(StoreError),
}

/// The texts of a vector of strings.
pub open spec fn texts(names: Seq<String>) -> Seq<Seq<char>> {
    names.map_values(|s: String| s@)
}

impl View for BetError {
    type V = Failure;

    open spec fn view(&self) -> Failure {
        match self {
            BetError::MultiOpt(held) => Failure::MultiOpt(texts(held@)),
            BetError::NotFound => Failure::NotFound,
            BetError::NotEnoughMoney => Failure::NotEnoughMoney,
            BetError::BetLocked => Failure::BetLocked,
            BetError::AlreadyExists => Failure::AlreadyExists,
            BetError::InternalError(e) => Failure::InternalError(*e),
        }
    }
}

/// What a failure of the store means to a caller of the ledger: a second
/// row under one primary key is something that exists already, a query that
/// found no row is something that is not there, and anything else is the
/// store's own failure.
pub open spec fn failure_of(err: StoreError) -> BetError {
    match err {
        StoreError::SqliteFailure(code) => if code == PRIMARY_KEY_TAKEN {
            BetError::AlreadyExists
        } else {
            BetError::InternalError(err)
        },
        StoreError::QueryReturnedNoRows => BetError::NotFound,
        _ => BetError::InternalError(err),
    }
}

impl From<StoreError> for BetError {
    fn from(err: StoreError) -> (res: BetError) {
        match err {
            StoreError::SqliteFailure(code) => {
                if code == PRIMARY_KEY_TAKEN {
                    BetError::AlreadyExists
                } else {
                    BetError::InternalError(err)
                }
            },
            StoreError::QueryReturnedNoRows => BetError::NotFound,
            _ => BetError::InternalError(err),
        }
    }
}

impl vstd::std_specs::convert::FromSpecImpl<StoreError> for BetError {
    open spec fn obeys_from_spec() -> bool {
        true
    }

    open spec fn from_spec(err: StoreError) -> BetError {
        failure_of(err)
    }
}

/// The ledger: accounts, bets with their options, the wagers on them, and
/// the marks of the bets that are torn down.
#[derive(Debug, Clone)]
pub struct Bets {
    db_path: String,
    accounts: Vec<AccountRow>,
    bets: Vec<BetRow>,
    options: Vec<OptionRow>,
    wagers: Vec<WagerRow>,
    tombstones: Vec<TombstoneRow>,
}

impl View for Bets {
    type V = Ledger;

    closed spec fn view(&self) -> Ledger {
        Ledger {
            accounts: self.accounts@.map_values(|r: AccountRow| r@),
            bets: self.bets@.map_values(|r: BetRow| r@),
            options: self.options@.map_values(|r: OptionRow| r@),
            wagers: self.wagers@.map_values(|r: WagerRow| r@),
            tombstones: self.tombstones@.map_values(|r: TombstoneRow| r@),
        }
    }
}

/// The rows of a ledger, as they are kept outside it: nothing is claimed of
/// them until they are restored.
#[derive(Debug, Clone)]
pub struct Tables {
    pub accounts: Vec<AccountRow>,
    pub bets: Vec<BetRow>,
    pub options: Vec<OptionRow>,
    pub wagers: Vec<WagerRow>,
    pub tombstones: Vec<TombstoneRow>,
}

impl View for Tables {
    type V = Ledger;

    open spec fn view(&self) -> Ledger {
        Ledger {
            accounts: self.accounts@.map_values(|r: AccountRow| r@),
            bets: self.bets@.map_values(|r: BetRow| r@),
            options: self.options@.map_values(|r: OptionRow| r@),
            wagers: self.wagers@.map_values(|r: WagerRow| r@),
            tombstones: self.tombstones@.map_values(|r: TombstoneRow| r@),
        }
    }
}

impl Bets {
    /// The ledger meets its constraints.
    pub open spec fn wf(&self) -> bool {
        self@.wf()
    }

    /// The name under which the ledger is kept.
    pub closed spec fn path(&self) -> Seq<char> {
        self.db_path@
    }

    /// An empty ledger, to be kept under `db_path`.
    pub fn new(db_path: &str) -> (res: Result<Bets, BetError>)
        ensures
            res matches Ok(bets) && bets@ == Ledger::empty() && bets.wf() && bets.path()
                == db_path@,
    {
        let bets = Bets {
            db_path: db_path.to_owned(),
            accounts: Vec::new(),
            bets: Vec::new(),
            options: Vec::new(),
            wagers: Vec::new(),
            tombstones: Vec::new(),
        };
        assert(bets@.accounts =~= Seq::empty());
        assert(bets@.bets =~= Seq::empty());
        assert(bets@.options =~= Seq::empty());
        assert(bets@.wagers =~= Seq::empty());
        assert(bets@.tombstones =~= Seq::empty());
        Ok(bets)
    }

    /// The ledger that `tables` hold, to be kept under `db_path`, where the
    /// rows meet the constraints of a ledger.
    pub fn restore(db_path: &str, tables: Tables) -> (res: Result<Bets, BetError>)
        ensures
            match res {
                Ok(bets) => tables@.wf() && bets.wf() && bets@ == tables@ && bets.path()
                    == db_path@,
                Err(e) => !tables@.wf() && e@ == Failure::InternalError(StoreError::Other),
            },
    {
        let bets = Bets {
            db_path: db_path.to_owned(),
            accounts: tables.accounts,
            bets: tables.bets,
            options: tables.options,
            wagers: tables.wagers,
            tombstones: tables.tombstones,
        };
        if bets.keys_are_unique() && bets.rows_refer() && bets.nobody_on_two_sides() {
            Ok(bets)
        } else {
            Err(BetError::InternalError(StoreError::Other))
        }
    }

    /// The rows of the account table.
    pub fn account_rows(&self) -> (rows: &Vec<AccountRow>)
        ensures
            rows@.map_values(|r: AccountRow| r@) == self@.accounts,
    {
        &self.accounts
    }

    /// The rows of the bet table.
    pub fn bet_rows(&self) -> (rows: &Vec<BetRow>)
        ensures
            rows@.map_values(|r: BetRow| r@) == self@.bets,
    {
        &self.bets
    }

    /// The rows of the option table.
    pub fn option_rows(&self) -> (rows: &Vec<OptionRow>)
        ensures
            rows@.map_values(|r: OptionRow| r@) == self@.options,
    {
        &self.options
    }

    /// The rows of the wager table.
    pub fn wager_rows(&self) -> (rows: &Vec<WagerRow>)
        ensures
            rows@.map_values(|r: WagerRow| r@) == self@.wagers,
    {
        &self.wagers
    }

    /// The rows of the table of tombstones.
    pub fn tombstone_rows(&self) -> (rows: &Vec<TombstoneRow>)
        ensures
            rows@.map_values(|r: TombstoneRow| r@) == self@.tombstones,
    {
        &self.tombstones
    }

    /// The name under which the ledger is kept.
    pub fn db_path(&self) -> (name: &str)
        ensures
            name@ == self.path(),
    {
        self.db_path.as_str()
    }

    /// Whether no two rows of a table share a key.
    fn keys_are_unique(&self) -> (unique: bool)
        ensures
            unique == (accounts_unique(self@.accounts) && bets_unique(self@.bets)
                && options_unique(self@.options) && wagers_unique(self@.wagers)
                && tombstones_unique(self@.tombstones)),
    {
        let mut j: usize = 0;
        while j < self.accounts.len()
            invariant
                j <= self.accounts.len(),
                forall|a: int, b: int|
                    #![trigger self@.accounts[a], self@.accounts[b]]
                    0 <= a < b < j ==> !(self@.accounts[a].server == self@.accounts[b].server
                        && self@.accounts[a].user == self@.accounts[b].user),
            decreases self.accounts.len() - j,
        {
            let mut i: usize = 0;
            while i < j
                invariant
                    i <= j < self.accounts.len(),
                    forall|a: int|
                        0 <= a < i ==> !((#[trigger] self@.accounts[a]).server
                            == self@.accounts[j as int].server && self@.accounts[a].user
                            == self@.accounts[j as int].user),
                decreases j - i,
            {
                if self.accounts[i].server == self.accounts[j].server && self.accounts[i].user
                    == self.accounts[j].user {
                    assert(self@.accounts[i as int].server == self@.accounts[j as int].server);
                    return false;
                }
                i += 1;
            }
            j += 1;
        }
        j = 0;
        while j < self.bets.len()
            invariant
                j <= self.bets.len(),
                accounts_unique(self@.accounts),
                forall|a: int, b: int|
                    #![trigger self@.bets[a], self@.bets[b]]
                    0 <= a < b < j ==> !(self@.bets[a].server == self@.bets[b].server
                        && self@.bets[a].bet == self@.bets[b].bet),
            decreases self.bets.len() - j,
        {
            let mut i: usize = 0;
            while i < j
                invariant
                    i <= j < self.bets.len(),
                    forall|a: int|
                        0 <= a < i ==> !((#[trigger] self@.bets[a]).server
                            == self@.bets[j as int].server && self@.bets[a].bet
                            == self@.bets[j as int].bet),
                decreases j - i,
            {
                if self.bets[i].server == self.bets[j].server && self.bets[i].bet
                    == self.bets[j].bet {
                    assert(self@.bets[i as int].server == self@.bets[j as int].server);
                    return false;
                }
                i += 1;
            }
            j += 1;
        }
        j = 0;
        while j < self.options.len()
            invariant
                j <= self.options.len(),
                accounts_unique(self@.accounts),
                bets_unique(self@.bets),
                forall|a: int, b: int|
                    #![trigger self@.options[a], self@.options[b]]
                    0 <= a < b < j ==> !(self@.options[a].server == self@.options[b].server
                        && self@.options[a].option == self@.options[b].option),
            decreases self.options.len() - j,
        {
            let mut i: usize = 0;
            while i < j
                invariant
                    i <= j < self.options.len(),
                    forall|a: int|
                        0 <= a < i ==> !((#[trigger] self@.options[a]).server
                            == self@.options[j as int].server && self@.options[a].option
                            == self@.options[j as int].option),
                decreases j - i,
            {
                if self.options[i].server == self.options[j].server && self.options[i].option
                    == self.options[j].option {
                    assert(self@.options[i as int].server == self@.options[j as int].server);
                    return false;
                }
                i += 1;
            }
            j += 1;
        }
        j = 0;
        while j < self.wagers.len()
            invariant
                j <= self.wagers.len(),
                accounts_unique(self@.accounts),
                bets_unique(self@.bets),
                options_unique(self@.options),
                forall|a: int, b: int|
                    #![trigger self@.wagers[a], self@.wagers[b]]
                    0 <= a < b < j ==> !(self@.wagers[a].server == self@.wagers[b].server
                        && self@.wagers[a].option == self@.wagers[b].option
                        && self@.wagers[a].user == self@.wagers[b].user),
            decreases self.wagers.len() - j,
        {
            let mut i: usize = 0;
            while i < j
                invariant
                    i <= j < self.wagers.len(),
                    forall|a: int|
                        0 <= a < i ==> !((#[trigger] self@.wagers[a]).server
                            == self@.wagers[j as int].server && self@.wagers[a].option
                            == self@.wagers[j as int].option && self@.wagers[a].user
                            == self@.wagers[j as int].user),
                decreases j - i,
            {
                if self.wagers[i].server == self.wagers[j].server && self.wagers[i].option
                    == self.wagers[j].option && self.wagers[i].user == self.wagers[j].user {
                    assert(self@.wagers[i as int].server == self@.wagers[j as int].server);
                    return false;
                }
                i += 1;
            }
            j += 1;
        }
        j = 0;
        while j < self.tombstones.len()
            invariant
                j <= self.tombstones.len(),
                accounts_unique(self@.accounts),
                bets_unique(self@.bets),
                options_unique(self@.options),
                wagers_unique(self@.wagers),
                forall|a: int, b: int|
                    #![trigger self@.tombstones[a], self@.tombstones[b]]
                    0 <= a < b < j ==> !(self@.tombstones[a].server == self@.tombstones[b].server
                        && self@.tombstones[a].bet == self@.tombstones[b].bet),
            decreases self.tombstones.len() - j,
        {
            let mut i: usize = 0;
            while i < j
                invariant
                    i <= j < self.tombstones.len(),
                    forall|a: int|
                        0 <= a < i ==> !((#[trigger] self@.tombstones[a]).server
                            == self@.tombstones[j as int].server && self@.tombstones[a].bet
                            == self@.tombstones[j as int].bet),
                decreases j - i,
            {
                if self.tombstones[i].server == self.tombstones[j].server
                    && self.tombstones[i].bet == self.tombstones[j].bet {
                    assert(self@.tombstones[i as int].server == self@.tombstones[j as int].server);
                    return false;
                }
                i += 1;
            }
            j += 1;
        }
        true
    }

    /// Whether every row refers to rows that exist, and every wager is of a
    /// positive amount.
    fn rows_refer(&self) -> (sound: bool)
        ensures
            sound == (options_refer(self@.bets, self@.options) && wagers_refer(
                self@.accounts,
                self@.options,
                self@.wagers,
            ) && tombstones_refer(self@.bets, self@.tombstones)),
    {
        let mut i: usize = 0;
        while i < self.options.len()
            invariant
                i <= self.options.len(),
                forall|k: int|
                    0 <= k < i ==> has_bet(
                        self@.bets,
                        (#[trigger] self@.options[k]).server,
                        self@.options[k].bet,
                    ),
            decreases self.options.len() - i,
        {
            if self.find_bet(&self.options[i].server, &self.options[i].bet).is_none() {
                assert(!has_bet(
                    self@.bets,
                    self@.options[i as int].server,
                    self@.options[i as int].bet,
                ));
                return false;
            }
            i += 1;
        }
        i = 0;
        while i < self.tombstones.len()
            invariant
                i <= self.tombstones.len(),
                options_refer(self@.bets, self@.options),
                forall|k: int|
                    0 <= k < i ==> has_bet(
                        self@.bets,
                        (#[trigger] self@.tombstones[k]).server,
                        self@.tombstones[k].bet,
                    ),
            decreases self.tombstones.len() - i,
        {
            if self.find_bet(&self.tombstones[i].server, &self.tombstones[i].bet).is_none() {
                assert(!has_bet(
                    self@.bets,
                    self@.tombstones[i as int].server,
                    self@.tombstones[i as int].bet,
                ));
                return false;
            }
            i += 1;
        }
        i = 0;
        while i < self.wagers.len()
            invariant
                i <= self.wagers.len(),
                options_refer(self@.bets, self@.options),
                tombstones_refer(self@.bets, self@.tombstones),
                forall|k: int|
                    0 <= k < i ==> {
                        &&& has_option(
                            self@.options,
                            (#[trigger] self@.wagers[k]).server,
                            self@.wagers[k].option,
                        )
                        &&& has_account(
                            self@.accounts,
                            self@.wagers[k].server,
                            self@.wagers[k].user,
                        )
                        &&& self@.wagers[k].amount > 0
                    },
            decreases self.wagers.len() - i,
        {
            let row = &self.wagers[i];
            if self.find_option(&row.server, &row.option).is_none() || self.find_account(
                &row.server,
                &row.user,
            ).is_none() || row.amount == 0 {
                assert(!(has_option(
                    self@.options,
                    self@.wagers[i as int].server,
                    self@.wagers[i as int].option,
                ) && has_account(
                    self@.accounts,
                    self@.wagers[i as int].server,
                    self@.wagers[i as int].user,
                ) && self@.wagers[i as int].amount > 0));
                return false;
            }
            i += 1;
        }
        true
    }

    /// The bet to which the option of the wager at `at` belongs.
    fn owner_of_wager(&self, at: usize) -> (bet: &String)
        requires
            options_unique(self@.options),
            at < self@.wagers.len(),
            has_option(
                self@.options,
                self@.wagers[at as int].server,
                self@.wagers[at as int].option,
            ),
        ensures
            bet@ == owner(
                self@.options,
                self@.wagers[at as int].server,
                self@.wagers[at as int].option,
            ),
    {
        let row = &self.wagers[at];
        match self.find_option(&row.server, &row.option) {
            Some(k) => {
                proof {
                    lemma_option_found(self@.options, k as int, row.server@, row.option@);
                }
                &self.options[k].bet
            },
            None => &row.option,
        }
    }

    /// Whether no user has wagers on two options of one bet.
    fn nobody_on_two_sides(&self) -> (sound: bool)
        requires
            options_unique(self@.options),
            wagers_refer(self@.accounts, self@.options, self@.wagers),
        ensures
            sound == one_option_per_bet(self@.options, self@.wagers),
    {
        let mut j: usize = 0;
        while j < self.wagers.len()
            invariant
                j <= self.wagers.len(),
                options_unique(self@.options),
                wagers_refer(self@.accounts, self@.options, self@.wagers),
                forall|a: int, b: int|
                    #![trigger self@.wagers[a], self@.wagers[b]]
                    0 <= a < b < j && self@.wagers[a].server == self@.wagers[b].server
                        && self@.wagers[a].user == self@.wagers[b].user && owner(
                        self@.options,
                        self@.wagers[a].server,
                        self@.wagers[a].option,
                    ) == owner(self@.options, self@.wagers[b].server, self@.wagers[b].option)
                        ==> self@.wagers[a].option == self@.wagers[b].option,
            decreases self.wagers.len() - j,
        {
            let mut i: usize = 0;
            while i < j
                invariant
                    i <= j < self.wagers.len(),
                    options_unique(self@.options),
                    wagers_refer(self@.accounts, self@.options, self@.wagers),
                    forall|a: int|
                        0 <= a < i && (#[trigger] self@.wagers[a]).server
                            == self@.wagers[j as int].server && self@.wagers[a].user
                            == self@.wagers[j as int].user && owner(
                            self@.options,
                            self@.wagers[a].server,
                            self@.wagers[a].option,
                        ) == owner(
                            self@.options,
                            self@.wagers[j as int].server,
                            self@.wagers[j as int].option,
                        ) ==> self@.wagers[a].option == self@.wagers[j as int].option,
                decreases j - i,
            {
                let a = &self.wagers[i];
                let b = &self.wagers[j];
                assert(has_option(
                    self@.options,
                    self@.wagers[i as int].server,
                    self@.wagers[i as int].option,
                ));
                assert(has_option(
                    self@.options,
                    self@.wagers[j as int].server,
                    self@.wagers[j as int].option,
                ));
                if a.server == b.server && a.user == b.user && !(a.option == b.option) {
                    if *self.owner_of_wager(i) == *self.owner_of_wager(j) {
                        return false;
                    }
                }
                i += 1;
            }
            j += 1;
        }
        assert forall|a: int, b: int|
            0 <= a < self@.wagers.len() && 0 <= b < self@.wagers.len() && self@.wagers[a].server
                == self@.wagers[b].server && self@.wagers[a].user == self@.wagers[b].user && owner(
                self@.options,
                self@.wagers[a].server,
                self@.wagers[a].option,
            ) == owner(self@.options, self@.wagers[b].server, self@.wagers[b].option)
            implies self@.wagers[a].option == self@.wagers[b].option by {
            if b < a {
                assert(self@.wagers[b].option == self@.wagers[a].option);
            }
        }
        true
    }

    /// Opens an account for `user` in `server` with `amount` in it, unless
    /// the user has one there.
    pub fn create_account(&mut self, server: &str, user: &str, amount: u32) -> (res: Result<
        (),
        BetError,
    >)
        requires
            old(self).wf(),
        ensures
            final(self).wf(),
            final(self).path() == old(self).path(),
            match res {
                Ok(_) => !old(self)@.has_account(server@, user@) && final(self)@ == old(
                    self,
                )@.create_account(server@, user@, amount as nat),
                Err(e) => old(self)@.has_account(server@, user@) && e@ == Failure::AlreadyExists
                    && final(self)@ == old(self)@,
            },
    {
        let server = server.to_owned();
        let user = user.to_owned();
        match self.find_account(&server, &user) {
            Some(i) => {
                assert(self@.has_account(server@, user@));
                Err(BetError::AlreadyExists)
            },
            None => {
                proof {
                    lemma_create_account_wf(self@, server@, user@, amount as nat);
                }
                self.accounts.push(AccountRow { server, user, balance: amount });
                assert(self@.accounts =~= old(self)@.create_account(
                    server@,
                    user@,
                    amount as nat,
                ).accounts);
                Ok(())
            },
        }
    }

    /// The balance of `user` in `server`.
    pub fn balance(&self, server: &str, user: &str) -> (res: Result<u32, BetError>)
        requires
            self.wf(),
        ensures
            match res {
                Ok(balance) => self@.has_account(server@, user@) && balance == self@.balance_of(
                    server@,
                    user@,
                ),
                Err(e) => !self@.has_account(server@, user@) && e@ == Failure::NotFound,
            },
    {
        let server = server.to_owned();
        let user = user.to_owned();
        match self.find_account(&server, &user) {
            Some(i) => {
                proof {
                    lemma_account_found(self@.accounts, i as int, server@, user@);
                }
                Ok(self.accounts[i].balance)
            },
            None => Err(BetError::NotFound),
        }
    }

    /// Resets `server`: every open bet of the server is removed with its
    /// options, the wagers on them and its mark, and every account of the
    /// server is set to `amount`.
    #[verifier::loop_isolation(false)]
    pub fn reset(&mut self, server: &str, amount: u32) -> (res: Result<(), BetError>)
        requires
            old(self).wf(),
        ensures
            final(self).wf(),
            final(self).path() == old(self).path(),
            res is Ok,
            final(self)@ == old(self)@.reset(server@, amount as nat),
    {
        let server = server.to_owned();
        let ghost goal = self@.reset(server@, amount as nat);
        let ghost gone = |b: Bet| b.server == server@ && b.is_open;
        proof {
            lemma_reset_wf(self@, server@, amount as nat);
        }
        let mut doomed: Vec<bool> = Vec::new();
        let mut i: usize = 0;
        while i < self.bets.len()
            invariant
                i <= self.bets.len(),
                doomed.len() == i,
                forall|k: int| 0 <= k < i ==> doomed[k] == gone(self@.bets[k]),
            decreases self.bets.len() - i,
        {
            doomed.push(self.bets[i].server == server && self.bets[i].is_open);
            i += 1;
        }
        self.sweep(Ghost(gone), &doomed);
        let n = self.accounts.len();
        i = 0;
        while i < n
            invariant
                i <= n,
                n == self.accounts.len(),
                self.db_path@ == old(self).db_path@,
                self@.bets == goal.bets,
                self@.options == goal.options,
                self@.wagers == goal.wagers,
                self@.tombstones == goal.tombstones,
                forall|j: int| 0 <= j < i ==> (#[trigger] self.accounts[j])@ == goal.accounts[j],
                forall|j: int|
                    i <= j < n ==> (#[trigger] self.accounts[j])@ == old(self)@.accounts[j],
            decreases n - i,
        {
            if self.accounts[i].server == server {
                self.accounts[i].balance = amount;
            }
            i += 1;
        }
        assert(self@.accounts =~= goal.accounts);
        Ok(())
    }

    /// Removes the bets that are torn down, with their options, their wagers
    /// and their marks: what was out of reach is now gone.
    #[verifier::loop_isolation(false)]
    pub fn purge(&mut self)
        requires
            old(self).wf(),
        ensures
            final(self).wf(),
            final(self).path() == old(self).path(),
            final(self)@ == old(self)@.purge(),
    {
        let ghost tombstones = self@.tombstones;
        let ghost gone = |b: Bet| marked(tombstones, b.server, b.bet);
        proof {
            lemma_purge_wf(self@);
        }
        let mut doomed: Vec<bool> = Vec::new();
        let mut i: usize = 0;
        while i < self.bets.len()
            invariant
                i <= self.bets.len(),
                doomed.len() == i,
                forall|k: int| 0 <= k < i ==> doomed[k] == gone(self@.bets[k]),
            decreases self.bets.len() - i,
        {
            doomed.push(self.is_marked(&self.bets[i].server, &self.bets[i].bet));
            i += 1;
        }
        self.sweep(Ghost(gone), &doomed);
    }

    /// Removes the bets that `doomed` tells to remove, each at its place in
    /// the table, with their options, the wagers on these and their marks.
    #[verifier::loop_isolation(false)]
    fn sweep(&mut self, Ghost(gone): Ghost<spec_fn(Bet) -> bool>, doomed: &Vec<bool>)
        requires
            old(self).wf(),
            doomed.len() == old(self)@.bets.len(),
            forall|k: int| 0 <= k < doomed.len() ==> doomed[k] == gone(old(self)@.bets[k]),
        ensures
            final(self).path() == old(self).path(),
            final(self)@ == old(self)@.without(gone),
    {
        let ghost table = self@;
        let ghost rows = self@.bets;
        let ghost options = self@.options;
        let ghost keep_bet = |b: Bet| !gone(b);
        let mut bets: Vec<BetRow> = Vec::new();
        proof {
            lemma_filter_none(rows, keep_bet);
            assert(bets@.map_values(|r: BetRow| r@) =~= rows.take(0).filter(keep_bet));
        }
        let mut i: usize = 0;
        while i < self.bets.len()
            invariant
                i <= self.bets.len(),
                self@ == table,
                bets@.map_values(|r: BetRow| r@) == rows.take(i as int).filter(keep_bet),
            decreases self.bets.len() - i,
        {
            let row = &self.bets[i];
            proof {
                lemma_filter_step(rows, keep_bet, i as int);
            }
            if !doomed[i] {
                let ghost before = bets@;
                bets.push(
                    BetRow {
                        server: row.server.clone(),
                        bet: row.bet.clone(),
                        desc: row.desc.clone(),
                        is_open: row.is_open,
                    },
                );
                assert(bets@.map_values(|r: BetRow| r@) =~= before.map_values(
                    |r: BetRow| r@,
                ).push(rows[i as int]));
            }
            i += 1;
        }
        let ghost keep_option = |o: BetOption| !gone(bet_row(rows, o.server, o.bet));
        let mut kept_options: Vec<OptionRow> = Vec::new();
        proof {
            lemma_filter_none(table.options, keep_option);
            assert(kept_options@.map_values(|r: OptionRow| r@) =~= table.options.take(0).filter(
                keep_option,
            ));
        }
        i = 0;
        while i < self.options.len()
            invariant
                i <= self.options.len(),
                self@ == table,
                kept_options@.map_values(|r: OptionRow| r@) == table.options.take(i as int).filter(
                    keep_option,
                ),
            decreases self.options.len() - i,
        {
            let row = &self.options[i];
            proof {
                lemma_filter_step(table.options, keep_option, i as int);
                assert(has_bet(rows, table.options[i as int].server, table.options[i as int].bet));
            }
            if !self.is_doomed(Ghost(gone), doomed, &row.server, &row.bet) {
                let ghost before = kept_options@;
                kept_options.push(
                    OptionRow {
                        server: row.server.clone(),
                        option: row.option.clone(),
                        bet: row.bet.clone(),
                        desc: row.desc.clone(),
                    },
                );
                assert(kept_options@.map_values(|r: OptionRow| r@) =~= before.map_values(
                    |r: OptionRow| r@,
                ).push(table.options[i as int]));
            }
            i += 1;
        }
        let ghost keep_wager = |w: Wager|
            !gone(bet_row(rows, w.server, owner(options, w.server, w.option)));
        let mut wagers: Vec<WagerRow> = Vec::new();
        proof {
            lemma_filter_none(table.wagers, keep_wager);
            assert(wagers@.map_values(|r: WagerRow| r@) =~= table.wagers.take(0).filter(
                keep_wager,
            ));
        }
        i = 0;
        while i < self.wagers.len()
            invariant
                i <= self.wagers.len(),
                self@ == table,
                wagers@.map_values(|r: WagerRow| r@) == table.wagers.take(i as int).filter(
                    keep_wager,
                ),
            decreases self.wagers.len() - i,
        {
            let row = &self.wagers[i];
            proof {
                lemma_filter_step(table.wagers, keep_wager, i as int);
                assert(has_option(
                    options,
                    table.wagers[i as int].server,
                    table.wagers[i as int].option,
                ));
            }
            let bet = self.owner_of_wager(i);
            proof {
                let k = option_index(options, row.server@, row.option@);
                assert(option_at(options, k, row.server@, row.option@));
                assert(has_bet(rows, options[k].server, options[k].bet));
            }
            if !self.is_doomed(Ghost(gone), doomed, &row.server, bet) {
                let ghost before = wagers@;
                wagers.push(
                    WagerRow {
                        server: row.server.clone(),
                        option: row.option.clone(),
                        user: row.user.clone(),
                        amount: row.amount,
                    },
                );
                assert(wagers@.map_values(|r: WagerRow| r@) =~= before.map_values(
                    |r: WagerRow| r@,
                ).push(table.wagers[i as int]));
            }
            i += 1;
        }
        let ghost keep_tombstone = |t: Tombstone| !gone(bet_row(rows, t.server, t.bet));
        let mut tombstones: Vec<TombstoneRow> = Vec::new();
        proof {
            lemma_filter_none(table.tombstones, keep_tombstone);
            assert(tombstones@.map_values(|r: TombstoneRow| r@) =~= table.tombstones.take(
                0,
            ).filter(keep_tombstone));
        }
        i = 0;
        while i < self.tombstones.len()
            invariant
                i <= self.tombstones.len(),
                self@ == table,
                tombstones@.map_values(|r: TombstoneRow| r@) == table.tombstones.take(
                    i as int,
                ).filter(keep_tombstone),
            decreases self.tombstones.len() - i,
        {
            let row = &self.tombstones[i];
            proof {
                lemma_filter_step(table.tombstones, keep_tombstone, i as int);
                assert(has_bet(
                    rows,
                    table.tombstones[i as int].server,
                    table.tombstones[i as int].bet,
                ));
            }
            if !self.is_doomed(Ghost(gone), doomed, &row.server, &row.bet) {
                let ghost before = tombstones@;
                tombstones.push(TombstoneRow { server: row.server.clone(), bet: row.bet.clone() });
                assert(tombstones@.map_values(|r: TombstoneRow| r@) =~= before.map_values(
                    |r: TombstoneRow| r@,
                ).push(table.tombstones[i as int]));
            }
            i += 1;
        }
        self.bets = bets;
        self.options = kept_options;
        self.wagers = wagers;
        self.tombstones = tombstones;
    }

    /// Whether the bet `bet` of `server`, which exists, is one that `doomed`
    /// tells to remove.
    fn is_doomed(
        &self,
        Ghost(gone): Ghost<spec_fn(Bet) -> bool>,
        doomed: &Vec<bool>,
        server: &String,
        bet: &String,
    ) -> (removed: bool)
        requires
            bets_unique(self@.bets),
            has_bet(self@.bets, server@, bet@),
            doomed.len() == self@.bets.len(),
            forall|k: int| 0 <= k < doomed.len() ==> doomed[k] == gone(self@.bets[k]),
        ensures
            removed == gone(bet_row(self@.bets, server@, bet@)),
    {
        match self.find_bet(server, bet) {
            Some(k) => {
                proof {
                    lemma_bet_found(self@.bets, k as int, server@, bet@);
                }
                doomed[k]
            },
            None => false,
        }
    }

    /// Enters the bet `bet` in `server`, open, with the options `options`
    /// and what each says, unless the bet or one of the options exists or an
    /// option is named twice: then nothing changes.
    #[verifier::loop_isolation(false)]
    pub fn create_bet(
        &mut self,
        server: &str,
        bet: &str,
        bet_desc: &str,
        options: &Vec<String>,
        options_desc: &Vec<String>,
    ) -> (res: Result<(), BetError>)
        requires
            old(self).wf(),
            options.len() == options_desc.len(),
        ensures
            final(self).wf(),
            final(self).path() == old(self).path(),
            match res {
                Ok(_) => !old(self)@.bet_collides(server@, bet@, texts(options@)) && final(self)@
                    == old(self)@.create_bet(
                    server@,
                    bet@,
                    bet_desc@,
                    texts(options@),
                    texts(options_desc@),
                ),
                Err(e) => old(self)@.bet_collides(server@, bet@, texts(options@)) && e@
                    == Failure::AlreadyExists && final(self)@ == old(self)@,
            },
    {
        let server = server.to_owned();
        let bet = bet.to_owned();
        let ghost names = texts(options@);
        let ghost descs = texts(options_desc@);
        if self.find_bet(&server, &bet).is_some() {
            return Err(BetError::AlreadyExists);
        }
        let n = options.len();
        let mut k: usize = 0;
        while k < n
            invariant
                k <= n,
                forall|j: int| 0 <= j < k ==> !self@.has_option(server@, #[trigger] names[j]),
                forall|i: int, j: int| 0 <= i < j < k ==> names[i] != names[j],
            decreases n - k,
        {
            if self.find_option(&server, &options[k]).is_some() {
                assert(self@.has_option(server@, names[k as int]));
                return Err(BetError::AlreadyExists);
            }
            let mut j: usize = 0;
            while j < k
                invariant
                    j <= k,
                    k < n,
                    forall|i: int| 0 <= i < j ==> names[i] != names[k as int],
                decreases k - j,
            {
                if options[j] == options[k] {
                    assert(names[j as int] == names[k as int]);
                    return Err(BetError::AlreadyExists);
                }
                j += 1;
            }
            k += 1;
        }
        proof {
            assert(names.no_duplicates());
            lemma_create_bet_wf(self@, server@, bet@, bet_desc@, names, descs);
        }
        let ghost goal = self@.create_bet(server@, bet@, bet_desc@, names, descs);
        let ghost base = self@.options.len() as int;
        self.bets.push(
            BetRow {
                server: server.clone(),
                bet: bet.clone(),
                desc: bet_desc.to_owned(),
                is_open: true,
            },
        );
        assert(self@.bets =~= goal.bets);
        k = 0;
        assert(self@.options =~= goal.options.take(base));
        while k < n
            invariant
                k <= n,
                self.db_path == old(self).db_path,
                self.accounts == old(self).accounts,
                self.wagers == old(self).wagers,
                self.tombstones == old(self).tombstones,
                self@.bets == goal.bets,
                self@.options == goal.options.take(base + k),
            decreases n - k,
        {
            let ghost before = self@.options;
            self.options.push(
                OptionRow {
                    server: server.clone(),
                    option: options[k].clone(),
                    bet: bet.clone(),
                    desc: options_desc[k].clone(),
                },
            );
            assert(self@.options =~= before.push(goal.options[base + k]));
            assert(goal.options.take(base + k + 1) =~= goal.options.take(
                base + k,
            ).push(goal.options[base + k]));
            k += 1;
        }
        assert(goal.options.take(base + n) =~= goal.options);
        Ok(())
    }

    /// Stakes the share `fraction` of the balance of `user` on the option
    /// `option` of `server`: the amount, rounded up to a whole, leaves the
    /// account and is added to what the user has on the option. Nothing
    /// changes where the stake is refused.
    pub fn bet_on(&mut self, server: &str, option: &str, user: &str, fraction: Fraction) -> (res:
        Result<(AccountUpdate, BetStatus), BetError>)
        requires
            old(self).wf(),
        ensures
            final(self).wf(),
            final(self).path() == old(self).path(),
            match res {
                Ok((update, status)) => {
                    let amount = stake_amount(
                        old(self)@.balance_of(server@, user@),
                        fraction.numerator(),
                        fraction.denominator(),
                    );
                    &&& old(self)@.stake_refused(
                        server@,
                        option@,
                        user@,
                        fraction.numerator(),
                        fraction.denominator(),
                    ) is None
                    &&& final(self)@ == old(self)@.stake(server@, option@, user@, amount)
                    &&& update@ == old(self)@.stake_update(server@, user@, amount)
                    &&& status@ == final(self)@.bet_view(
                        server@,
                        old(self)@.bet_of_option(server@, option@),
                    )
                },
                Err(e) => old(self)@.stake_refused(
                    server@,
                    option@,
                    user@,
                    fraction.numerator(),
                    fraction.denominator(),
                ) == Some(e@) && final(self)@ == old(self)@,
            },
    {
        let server = server.to_owned();
        let option = option.to_owned();
        let user = user.to_owned();
        let option_row = match self.find_option(&server, &option) {
            Some(at) => at,
            None => {
                return Err(BetError::NotFound);
            },
        };
        proof {
            lemma_option_found(self@.options, option_row as int, server@, option@);
        }
        let bet = self.options[option_row].bet.clone();
        if self.is_marked(&server, &bet) {
            return Err(BetError::NotFound);
        }
        let bet_row = match self.find_bet(&server, &bet) {
            Some(at) => at,
            None => {
                assert(has_bet(
                    self@.bets,
                    self@.options[option_row as int].server,
                    self@.options[option_row as int].bet,
                ));
                return Err(BetError::NotFound);
            },
        };
        proof {
            lemma_bet_found(self@.bets, bet_row as int, server@, bet@);
        }
        if !self.bets[bet_row].is_open {
            return Err(BetError::BetLocked);
        }
        let held = self.held_elsewhere(&server, &option, &bet, &user);
        if held.len() >= 1 {
            return Err(BetError::MultiOpt(held));
        }
        let account_row = match self.find_account(&server, &user) {
            Some(at) => at,
            None => {
                return Err(BetError::NotFound);
            },
        };
        proof {
            lemma_account_found(self@.accounts, account_row as int, server@, user@);
        }
        let balance = self.accounts[account_row].balance;
        let amount = fraction.of(balance);
        if amount == 0 {
            return Err(BetError::NotEnoughMoney);
        }
        let wager_row = self.find_wager(&server, &option, &user);
        proof {
            lemma_stake_wf(self@, server@, option@, user@, amount as nat);
        }
        match wager_row {
            Some(i) => {
                proof {
                    lemma_wager_found(self@.wagers, i as int, server@, option@, user@);
                }
                let staked = self.wagers[i].amount;
                if staked > u32::MAX - amount {
                    return Err(BetError::InternalError(StoreError::IntegralValueOutOfRange));
                }
                self.wagers[i].amount = staked + amount;
                assert(self@.wagers =~= old(self)@.stake(
                    server@,
                    option@,
                    user@,
                    amount as nat,
                ).wagers) by {
                    assert forall|k: int| 0 <= k < old(self)@.wagers.len() && k != i implies !(
                    (#[trigger] old(self)@.wagers[k]).server == server@ && old(self)@.wagers[k].option
                        == option@ && old(self)@.wagers[k].user == user@) by {
                        if wager_at(old(self)@.wagers, k, server@, option@, user@) {
                            lemma_wager_found(old(self)@.wagers, k, server@, option@, user@);
                        }
                    }
                }
            },
            None => {
                self.wagers.push(
                    WagerRow {
                        server: server.clone(),
                        option: option.clone(),
                        user: user.clone(),
                        amount,
                    },
                );
                assert(self@.wagers =~= old(self)@.stake(
                    server@,
                    option@,
                    user@,
                    amount as nat,
                ).wagers);
            },
        }
        self.accounts[account_row].balance = balance - amount;
        assert(self@.accounts =~= old(self)@.stake(
            server@,
            option@,
            user@,
            amount as nat,
        ).accounts) by {
            assert forall|k: int| 0 <= k < old(self)@.accounts.len() && k != account_row implies !(
            (#[trigger] old(self)@.accounts[k]).server == server@ && old(self)@.accounts[k].user
                == user@) by {
                if account_at(old(self)@.accounts, k, server@, user@) {
                    lemma_account_found(old(self)@.accounts, k, server@, user@);
                }
            }
        }
        assert(self@ == old(self)@.stake(server@, option@, user@, amount as nat));
        let status = self.bet_status(&server, bet, bet_row);
        let update = AccountUpdate {
            server,
            user,
            diff: -(amount as i64),
            balance: balance - amount,
        };
        Ok((update, status))
    }

    /// The other options of the bet `bet`, to which `option` belongs, on
    /// which `user` has a wager.
    #[verifier::loop_isolation(false)]
    fn held_elsewhere(
        &self,
        server: &String,
        option: &String,
        bet: &String,
        user: &String,
    ) -> (held: Vec<String>)
        requires
            bet@ == owner(self@.options, server@, option@),
        ensures
            texts(held@) == self@.held_elsewhere(server@, option@, user@),
    {
        let ghost options = self@.options;
        let ghost wagers = self@.wagers;
        let ghost keep = |o: BetOption| held_by(options, wagers, o, server@, option@, user@);
        let ghost name = |o: BetOption| o.option;
        let mut held: Vec<String> = Vec::new();
        proof {
            lemma_filter_none(options, keep);
            assert(texts(held@) =~= options.take(0).filter(keep).map_values(name));
        }
        let mut i: usize = 0;
        while i < self.options.len()
            invariant
                i <= self.options.len(),
                texts(held@) == options.take(i as int).filter(keep).map_values(name),
            decreases self.options.len() - i,
        {
            let row = &self.options[i];
            let ghost o = options[i as int];
            let mut holds = false;
            if row.server == *server && row.bet == *bet && !(row.option == *option) {
                match self.find_wager(server, &row.option, user) {
                    Some(_) => {
                        holds = true;
                    },
                    None => {},
                }
            }
            assert(holds == keep(o));
            proof {
                lemma_filter_map_step(options, keep, name, i as int);
            }
            if holds {
                let ghost before = held@;
                held.push(row.option.clone());
                assert(texts(held@) =~= texts(before).push(o.option));
            }
            i += 1;
        }
        held
    }

    /// Who staked how much on the option `option` of `server`.
    #[verifier::loop_isolation(false)]
    fn wagers_on(&self, server: &String, option: &String) -> (stakes: Vec<(String, u32)>)
        ensures
            stake_views(stakes@) == wagers_on(self@.wagers, server@, option@),
    {
        let ghost wagers = self@.wagers;
        let ghost keep = |w: Wager| wager_on(w, server@, option@);
        let ghost stake = |w: Wager| (w.user, w.amount);
        let mut stakes: Vec<(String, u32)> = Vec::new();
        proof {
            lemma_filter_none(wagers, keep);
            assert(stake_views(stakes@) =~= wagers.take(0).filter(keep).map_values(stake));
        }
        let mut i: usize = 0;
        while i < self.wagers.len()
            invariant
                i <= self.wagers.len(),
                stake_views(stakes@) == wagers.take(i as int).filter(keep).map_values(stake),
            decreases self.wagers.len() - i,
        {
            let row = &self.wagers[i];
            let ghost w = wagers[i as int];
            proof {
                lemma_filter_map_step(wagers, keep, stake, i as int);
            }
            if row.server == *server && row.option == *option {
                let ghost before = stakes@;
                stakes.push((row.user.clone(), row.amount));
                assert(stake_views(stakes@) =~= stake_views(before).push((w.user, w.amount)));
            }
            i += 1;
        }
        stakes
    }

    /// The bet `bet` of `server`, which stands at `at` in its table, with
    /// its options and their wagers.
    #[verifier::loop_isolation(false)]
    fn bet_status(&self, server: &String, bet: String, at: usize) -> (status: BetStatus)
        requires
            self.wf(),
            bet_at(self@.bets, at as int, server@, bet@),
        ensures
            status@ == self@.bet_view(server@, bet@),
    {
        let ghost options = self@.options;
        let ghost wagers = self@.wagers;
        let ghost keep = |o: BetOption| option_in(o, server@, bet@);
        let ghost show = |o: BetOption| option_view(wagers, o);
        let mut statuses: Vec<OptionStatus> = Vec::new();
        proof {
            lemma_bet_found(self@.bets, at as int, server@, bet@);
            lemma_filter_none(options, keep);
            assert(option_views(statuses@) =~= options.take(0).filter(keep).map_values(show));
        }
        let mut i: usize = 0;
        while i < self.options.len()
            invariant
                i <= self.options.len(),
                option_views(statuses@) == options.take(i as int).filter(keep).map_values(show),
            decreases self.options.len() - i,
        {
            let row = &self.options[i];
            let ghost o = options[i as int];
            proof {
                lemma_filter_map_step(options, keep, show, i as int);
            }
            if row.server == *server && row.bet == bet {
                let stakes = self.wagers_on(&row.server, &row.option);
                let ghost before = statuses@;
                let status = OptionStatus {
                    option: row.option.clone(),
                    desc: row.desc.clone(),
                    wagers: stakes,
                };
                assert(status@ == option_view(wagers, o));
                statuses.push(status);
                assert(option_views(statuses@) =~= option_views(before).push(show(o)));
            }
            i += 1;
        }
        BetStatus { bet, desc: self.bets[at].desc.clone(), options: statuses }
    }

    /// Adds `income` to the balance of every account, in every server,
    /// unless a balance would no longer fit: then nothing changes.
    #[verifier::loop_isolation(false)]
    pub fn income(&mut self, income: u32) -> (res: Result<Vec<AccountUpdate>, BetError>)
        requires
            old(self).wf(),
        ensures
            final(self).wf(),
            final(self).path() == old(self).path(),
            match res {
                Ok(updates) => !old(self)@.income_refused(income as nat) && final(self)@ == old(
                    self,
                )@.income(income as nat) && update_views(updates@) == old(self)@.income_updates(
                    income as nat,
                ),
                Err(e) => old(self)@.income_refused(income as nat) && e@ == Failure::InternalError(
                    StoreError::IntegralValueOutOfRange,
                ) && final(self)@ == old(self)@,
            },
    {
        let ghost accounts = self@.accounts;
        let ghost paid = self@.income(income as nat).accounts;
        let ghost records = self@.income_updates(income as nat);
        let n = self.accounts.len();
        let mut i: usize = 0;
        while i < n
            invariant
                i <= n,
                forall|j: int| 0 <= j < i ==> (#[trigger] paid[j]).balance <= max_amount(),
            decreases n - i,
        {
            if self.accounts[i].balance > u32::MAX - income {
                assert(paid[i as int].balance > max_amount());
                return Err(BetError::InternalError(StoreError::IntegralValueOutOfRange));
            }
            i += 1;
        }
        proof {
            assert(fits(paid));
            lemma_rebalanced(self@, self@.income(income as nat));
        }
        let mut updates: Vec<AccountUpdate> = Vec::new();
        i = 0;
        assert(update_views(updates@) =~= records.take(0));
        while i < n
            invariant
                i <= n,
                n == self.accounts.len(),
                self.db_path == old(self).db_path,
                self.bets == old(self).bets,
                self.options == old(self).options,
                self.wagers == old(self).wagers,
                self.tombstones == old(self).tombstones,
                forall|j: int| 0 <= j < i ==> (#[trigger] self.accounts[j])@ == paid[j],
                forall|j: int| i <= j < n ==> (#[trigger] self.accounts[j])@ == accounts[j],
                update_views(updates@) == records.take(i as int),
            decreases n - i,
        {
            assert(paid[i as int].balance <= max_amount());
            let balance = self.accounts[i].balance + income;
            self.accounts[i].balance = balance;
            let ghost before = updates@;
            let update = AccountUpdate {
                server: self.accounts[i].server.clone(),
                user: self.accounts[i].user.clone(),
                diff: income as i64,
                balance,
            };
            updates.push(update);
            proof {
                assert(update_views(updates@) =~= update_views(before).push(records[i as int]));
                assert(records.take(i + 1) =~= records.take(i as int).push(records[i as int]));
            }
            i += 1;
        }
        assert(self@.accounts =~= paid);
        assert(records.take(n as int) =~= records);
        Ok(updates)
    }

    /// Locks the bet `bet` of `server`, which then takes no more wagers.
    pub fn lock_bet(&mut self, server: &str, bet: &str) -> (res: Result<(), BetError>)
        requires
            old(self).wf(),
        ensures
            final(self).wf(),
            final(self).path() == old(self).path(),
            match res {
                Ok(_) => old(self)@.is_live(server@, bet@) && final(self)@ == old(self)@.lock_bet(
                    server@,
                    bet@,
                ),
                Err(e) => !old(self)@.is_live(server@, bet@) && e@ == Failure::NotFound
                    && final(self)@ == old(self)@,
            },
    {
        let server = server.to_owned();
        let bet = bet.to_owned();
        let at = match self.find_bet(&server, &bet) {
            Some(at) => at,
            None => {
                return Err(BetError::NotFound);
            },
        };
        if self.is_marked(&server, &bet) {
            return Err(BetError::NotFound);
        }
        proof {
            lemma_lock_bet_wf(self@, server@, bet@);
        }
        self.bets[at].is_open = false;
        assert(self@.bets =~= old(self)@.lock_bet(server@, bet@).bets) by {
            assert forall|k: int| 0 <= k < old(self)@.bets.len() && k != at implies !((
            #[trigger] old(self)@.bets[k]).server == server@ && old(self)@.bets[k].bet == bet@) by {
                if bet_at(old(self)@.bets, k, server@, bet@) {
                    lemma_bet_found(old(self)@.bets, k, server@, bet@);
                    lemma_bet_found(old(self)@.bets, at as int, server@, bet@);
                }
            }
        }
        Ok(())
    }

    /// The bet to which the option `option` of `server` belongs, whether the
    /// bet is torn down or not, as long as its rows are there.
    pub fn bet_of_option(&self, server: &str, option: &str) -> (res: Result<String, BetError>)
        requires
            self.wf(),
        ensures
            match res {
                Ok(bet) => self@.has_option(server@, option@) && bet@ == self@.bet_of_option(
                    server@,
                    option@,
                ),
                Err(e) => !self@.has_option(server@, option@) && e@ == Failure::NotFound,
            },
    {
        let server = server.to_owned();
        let option = option.to_owned();
        match self.find_option(&server, &option) {
            Some(at) => {
                proof {
                    lemma_option_found(self@.options, at as int, server@, option@);
                }
                Ok(self.options[at].bet.clone())
            },
            None => Err(BetError::NotFound),
        }
    }

    /// The options of the bet `bet` of `server`, in the order in which they
    /// were entered, whether the bet is torn down or not: none where there is
    /// no such bet.
    #[verifier::loop_isolation(false)]
    pub fn options_of_bet(&self, server: &str, bet: &str) -> (res: Result<Vec<String>, BetError>)
        ensures
            res matches Ok(names) && texts(names@) == self@.options_of_bet(server@, bet@),
    {
        let server = server.to_owned();
        let bet = bet.to_owned();
        let ghost options = self@.options;
        let ghost keep = |o: BetOption| option_in(o, server@, bet@);
        let ghost name = |o: BetOption| o.option;
        let mut names: Vec<String> = Vec::new();
        proof {
            lemma_filter_none(options, keep);
            assert(texts(names@) =~= options.take(0).filter(keep).map_values(name));
        }
        let mut i: usize = 0;
        while i < self.options.len()
            invariant
                i <= self.options.len(),
                texts(names@) == options.take(i as int).filter(keep).map_values(name),
            decreases self.options.len() - i,
        {
            let row = &self.options[i];
            let ghost o = options[i as int];
            proof {
                lemma_filter_map_step(options, keep, name, i as int);
            }
            if row.server == server && row.bet == bet {
                let ghost before = names@;
                names.push(row.option.clone());
                assert(texts(names@) =~= texts(before).push(o.option));
            }
            i += 1;
        }
        Ok(names)
    }

    /// The accounts of `server`, each with its balance and with what its
    /// user has at stake in the bets that are not torn down, in the order in
    /// which the accounts were opened.
    #[verifier::loop_isolation(false)]
    pub fn accounts(&self, server: &str) -> (res: Result<Vec<AccountStatus>, BetError>)
        requires
            self.wf(),
        ensures
            match res {
                Ok(list) => !self@.standings_refused(server@) && standing_views(list@)
                    == self@.standings(server@),
                Err(e) => self@.standings_refused(server@) && e@ == Failure::InternalError(
                    StoreError::IntegralValueOutOfRange,
                ),
            },
    {
        let server = server.to_owned();
        let ghost ledger = self@;
        let ghost accounts = self@.accounts;
        let ghost keep = |a: Account| a.server == server@;
        let ghost show = |a: Account|
            Standing { user: a.user, balance: a.balance, in_bet: ledger.in_bet(server@, a.user) };
        let mut list: Vec<AccountStatus> = Vec::new();
        proof {
            lemma_filter_none(accounts, keep);
            assert(standing_views(list@) =~= accounts.take(0).filter(keep).map_values(show));
        }
        let mut i: usize = 0;
        while i < self.accounts.len()
            invariant
                i <= self.accounts.len(),
                standing_views(list@) == accounts.take(i as int).filter(keep).map_values(show),
                forall|j: int|
                    0 <= j < i && (#[trigger] accounts[j]).server == server@ ==> ledger.in_bet(
                        server@,
                        accounts[j].user,
                    ) <= max_amount(),
            decreases self.accounts.len() - i,
        {
            let row = &self.accounts[i];
            let ghost a = accounts[i as int];
            proof {
                lemma_filter_map_step(accounts, keep, show, i as int);
            }
            if row.server == server {
                let in_bet = match self.in_bet(&server, &row.user) {
                    Some(in_bet) => in_bet,
                    None => {
                        return Err(BetError::InternalError(StoreError::IntegralValueOutOfRange));
                    },
                };
                let ghost before = list@;
                list.push(AccountStatus { user: row.user.clone(), balance: row.balance, in_bet });
                assert(standing_views(list@) =~= standing_views(before).push(show(a)));
            }
            i += 1;
        }
        Ok(list)
    }

    /// What `user` has at stake in the bets of `server` that are not torn
    /// down, where it is an amount.
    #[verifier::loop_isolation(false)]
    fn in_bet(&self, server: &String, user: &String) -> (in_bet: Option<u32>)
        requires
            self.wf(),
        ensures
            match in_bet {
                Some(in_bet) => in_bet == self@.in_bet(server@, user@),
                None => self@.in_bet(server@, user@) > max_amount(),
            },
    {
        let ghost options = self@.options;
        let ghost tombstones = self@.tombstones;
        let ghost wagers = self@.wagers;
        let ghost due = |w: Wager|
            w.server == server@ && w.user == user@ && wager_live(options, tombstones, w);
        let mut in_bet: u32 = 0;
        let mut i: usize = 0;
        proof {
            if wagers.len() > 0 {
                lemma_stakes_step(wagers, due, 0);
            } else {
                assert(wagers.take(0) =~= wagers);
            }
        }
        while i < self.wagers.len()
            invariant
                i <= self.wagers.len(),
                in_bet == stakes(wagers.take(i as int), due),
            decreases self.wagers.len() - i,
        {
            let row = &self.wagers[i];
            let counts = row.server == *server && row.user == *user && self.is_wager_live(i);
            proof {
                lemma_stakes_step(wagers, due, i as int);
            }
            if counts {
                let amount = row.amount;
                if in_bet > u32::MAX - amount {
                    return None;
                }
                in_bet = in_bet + amount;
            }
            i += 1;
        }
        proof {
            assert(wagers.take(wagers.len() as int) =~= wagers);
        }
        Some(in_bet)
    }

    /// Whether the wager at `at` is on a bet that is not torn down.
    fn is_wager_live(&self, at: usize) -> (live: bool)
        requires
            self.wf(),
            at < self@.wagers.len(),
        ensures
            live == wager_live(self@.options, self@.tombstones, self@.wagers[at as int]),
    {
        let row = &self.wagers[at];
        assert(has_option(
            self@.options,
            self@.wagers[at as int].server,
            self@.wagers[at as int].option,
        ));
        match self.find_option(&row.server, &row.option) {
            Some(k) => {
                proof {
                    lemma_option_found(self@.options, k as int, row.server@, row.option@);
                }
                !self.is_marked(&row.server, &self.options[k].bet)
            },
            None => true,
        }
    }

    /// Calls off the bet `bet` of `server`: every wager on it goes back to
    /// its owner, and the bet is marked as torn down. Nothing changes where
    /// this is refused.
    pub fn abort_bet(&mut self, server: &str, bet: &str) -> (res: Result<
        Vec<AccountUpdate>,
        BetError,
    >)
        requires
            old(self).wf(),
        ensures
            final(self).wf(),
            final(self).path() == old(self).path(),
            match res {
                Ok(updates) => old(self)@.abort_refused(server@, bet@) is None && final(self)@
                    == old(self)@.abort_bet(server@, bet@) && update_views(updates@) == old(
                    self,
                )@.abort_updates(server@, bet@),
                Err(e) => old(self)@.abort_refused(server@, bet@) == Some(e@) && final(self)@
                    == old(self)@,
            },
    {
        let server = server.to_owned();
        let bet = bet.to_owned();
        if self.find_bet(&server, &bet).is_none() || self.is_marked(&server, &bet) {
            return Err(BetError::NotFound);
        }
        let credits = self.refunds(&server, &bet);
        proof {
            let options = self@.options;
            let due = |w: Wager| wager_in(options, w, server@, bet@);
            assert forall|k: int| 0 <= k < self@.refunds(server@, bet@).len() implies has_account(
                self@.accounts,
                server@,
                (#[trigger] self@.refunds(server@, bet@)[k]).user,
            ) by {
                lemma_filtered_have_accounts(self@, due, k);
            }
        }
        self.tear_down(server, bet, credits)
    }

    /// Settles the bet of the option `winning_option` of `server` on that
    /// option:
    /// the pool of the bet is shared among the wagers on the option in
    /// proportion to their amounts, and the bet is marked as torn down.
    /// Nothing changes where this is refused.
    pub fn close_bet(&mut self, server: &str, winning_option: &str) -> (res: Result<
        Vec<AccountUpdate>,
        BetError,
    >)
        requires
            old(self).wf(),
        ensures
            final(self).wf(),
            final(self).path() == old(self).path(),
            match res {
                Ok(updates) => old(self)@.close_refused(server@, winning_option@) is None
                    && final(self)@ == old(self)@.close_bet(server@, winning_option@)
                    && update_views(updates@) == old(self)@.close_updates(
                    server@,
                    winning_option@,
                ),
                Err(e) => old(self)@.close_refused(server@, winning_option@) == Some(e@)
                    && final(self)@ == old(self)@,
            },
    {
        let server = server.to_owned();
        let option = winning_option.to_owned();
        let option_row = match self.find_option(&server, &option) {
            Some(at) => at,
            None => {
                return Err(BetError::NotFound);
            },
        };
        proof {
            lemma_option_found(self@.options, option_row as int, server@, option@);
            assert(has_bet(
                self@.bets,
                self@.options[option_row as int].server,
                self@.options[option_row as int].bet,
            ));
        }
        let bet = self.options[option_row].bet.clone();
        if self.is_marked(&server, &bet) {
            return Err(BetError::NotFound);
        }
        let pool = match self.pool(&server, &bet) {
            Some(pool) => pool,
            None => {
                return Err(BetError::InternalError(StoreError::IntegralValueOutOfRange));
            },
        };
        let credits = self.winnings(&server, &option, pool);
        proof {
            let due = |w: Wager| wager_on(w, server@, option@);
            assert forall|k: int| 0 <= k < self@.winnings(server@, option@).len() implies has_account(
                self@.accounts,
                server@,
                (#[trigger] self@.winnings(server@, option@)[k]).user,
            ) by {
                lemma_filtered_have_accounts(self@, due, k);
            }
        }
        self.tear_down(server, bet, credits)
    }

    /// What calling off the bet `bet` of `server` gives back.
    #[verifier::loop_isolation(false)]
    fn refunds(&self, server: &String, bet: &String) -> (credits: Vec<(String, u32)>)
        requires
            self.wf(),
        ensures
            credit_views(credits@) == self@.refunds(server@, bet@),
    {
        let ghost options = self@.options;
        let ghost wagers = self@.wagers;
        let ghost due = |w: Wager| wager_in(options, w, server@, bet@);
        let ghost refund = |w: Wager| Credit { user: w.user, amount: w.amount };
        let mut credits: Vec<(String, u32)> = Vec::new();
        proof {
            lemma_filter_none(wagers, due);
            assert(credit_views(credits@) =~= wagers.take(0).filter(due).map_values(refund));
        }
        let mut i: usize = 0;
        while i < self.wagers.len()
            invariant
                i <= self.wagers.len(),
                credit_views(credits@) == wagers.take(i as int).filter(due).map_values(refund),
            decreases self.wagers.len() - i,
        {
            let row = &self.wagers[i];
            let ghost w = wagers[i as int];
            let owed = self.is_wager_in(i, server, bet);
            proof {
                lemma_filter_map_step(wagers, due, refund, i as int);
            }
            if owed {
                let ghost before = credits@;
                credits.push((row.user.clone(), row.amount));
                assert(credit_views(credits@) =~= credit_views(before).push(refund(w)));
            }
            i += 1;
        }
        credits
    }

    /// Whether the wager at `at` is on an option of the bet `bet` of
    /// `server`.
    fn is_wager_in(&self, at: usize, server: &String, bet: &String) -> (within: bool)
        requires
            self.wf(),
            at < self@.wagers.len(),
        ensures
            within == wager_in(self@.options, self@.wagers[at as int], server@, bet@),
    {
        let row = &self.wagers[at];
        if !(row.server == *server) {
            return false;
        }
        assert(has_option(
            self@.options,
            self@.wagers[at as int].server,
            self@.wagers[at as int].option,
        ));
        match self.find_option(server, &row.option) {
            Some(k) => {
                proof {
                    lemma_option_found(self@.options, k as int, server@, row.option@);
                }
                self.options[k].bet == *bet
            },
            None => false,
        }
    }

    /// The pool of the bet `bet` of `server`, where it is an amount.
    #[verifier::loop_isolation(false)]
    fn pool(&self, server: &String, bet: &String) -> (pool: Option<u32>)
        requires
            self.wf(),
        ensures
            match pool {
                Some(pool) => pool == self@.pool(server@, bet@),
                None => self@.pool(server@, bet@) > max_amount(),
            },
    {
        let ghost options = self@.options;
        let ghost wagers = self@.wagers;
        let ghost due = |w: Wager| wager_in(options, w, server@, bet@);
        let mut pool: u32 = 0;
        let mut i: usize = 0;
        proof {
            if wagers.len() > 0 {
                lemma_stakes_step(wagers, due, 0);
            } else {
                assert(wagers.take(0) =~= wagers);
            }
        }
        while i < self.wagers.len()
            invariant
                i <= self.wagers.len(),
                pool == stakes(wagers.take(i as int), due),
            decreases self.wagers.len() - i,
        {
            let owed = self.is_wager_in(i, server, bet);
            proof {
                lemma_stakes_step(wagers, due, i as int);
            }
            if owed {
                let amount = self.wagers[i].amount;
                if pool > u32::MAX - amount {
                    return None;
                }
                pool = pool + amount;
            }
            i += 1;
        }
        proof {
            assert(wagers.take(wagers.len() as int) =~= wagers);
        }
        Some(pool)
    }

    /// What settling on the option `option` of `server` pays, where `pool`
    /// is the pool of its bet.
    #[verifier::loop_isolation(false)]
    fn winnings(&self, server: &String, option: &String, pool: u32) -> (credits: Vec<(String, u32)>)
        requires
            pool == self@.pool(server@, self@.bet_of_option(server@, option@)),
        ensures
            credit_views(credits@) == self@.winnings(server@, option@),
    {
        let ghost wagers = self@.wagers;
        let ghost due = |w: Wager| wager_on(w, server@, option@);
        let ghost name = |w: Wager| w.user;
        let ghost held = |w: Wager| w.amount;
        let mut users: Vec<String> = Vec::new();
        let mut wins: Vec<u32> = Vec::new();
        proof {
            lemma_filter_none(wagers, due);
            assert(texts(users@) =~= wagers.take(0).filter(due).map_values(name));
            assert(nats(wins@) =~= wagers.take(0).filter(due).map_values(held));
        }
        let mut i: usize = 0;
        while i < self.wagers.len()
            invariant
                i <= self.wagers.len(),
                texts(users@) == wagers.take(i as int).filter(due).map_values(name),
                nats(wins@) == wagers.take(i as int).filter(due).map_values(held),
            decreases self.wagers.len() - i,
        {
            let row = &self.wagers[i];
            let ghost w = wagers[i as int];
            proof {
                lemma_filter_map_step(wagers, due, name, i as int);
                lemma_filter_map_step(wagers, due, held, i as int);
            }
            if row.server == *server && row.option == *option {
                let ghost users_before = users@;
                let ghost wins_before = wins@;
                users.push(row.user.clone());
                wins.push(row.amount);
                assert(texts(users@) =~= texts(users_before).push(w.user));
                assert(nats(wins@) =~= nats(wins_before).push(w.amount));
            }
            i += 1;
        }
        let ghost winners = wagers.filter(due);
        assert(winners == self@.winners(server@, option@));
        let gains = lrm(pool, &wins);
        let ghost due_credits = self@.winnings(server@, option@);
        assert(users.len() == winners.len()) by {
            assert(texts(users@).len() == winners.map_values(name).len());
        }
        assert(wins.len() == winners.len()) by {
            assert(nats(wins@).len() == winners.map_values(held).len());
        }
        let mut credits: Vec<(String, u32)> = Vec::new();
        let mut k: usize = 0;
        assert(credit_views(credits@) =~= due_credits.take(0));
        while k < users.len()
            invariant
                k <= users.len(),
                credit_views(credits@) == due_credits.take(k as int),
            decreases users.len() - k,
        {
            let ghost before = credits@;
            credits.push((users[k].clone(), gains[k]));
            proof {
                assert(texts(users@)[k as int] == winners.map_values(name)[k as int]);
                assert(nats(gains@)[k as int] == allocation(
                    pool as nat,
                    winners.map_values(held),
                )[k as int]);
                assert(credit_views(credits@) =~= credit_views(before).push(due_credits[k as int]));
                assert(due_credits.take(k + 1) =~= due_credits.take(k as int).push(
                    due_credits[k as int],
                ));
            }
            k += 1;
        }
        assert(due_credits.take(users.len() as int) =~= due_credits);
        credits
    }

    /// Pays `credits` in `server` and marks the bet `bet` as torn down,
    /// unless a balance would no longer fit.
    #[verifier::loop_isolation(false)]
    fn tear_down(&mut self, server: String, bet: String, credits: Vec<(String, u32)>) -> (res:
        Result<Vec<AccountUpdate>, BetError>)
        requires
            old(self).wf(),
            old(self)@.is_live(server@, bet@),
            forall|k: int|
                0 <= k < credits.len() ==> has_account(
                    old(self)@.accounts,
                    server@,
                    (#[trigger] credit_views(credits@)[k]).user,
                ),
        ensures
            final(self).wf(),
            final(self).path() == old(self).path(),
            match res {
                Ok(updates) => fits(credit_all(old(self)@.accounts, server@, credit_views(credits@)))
                    && final(self)@ == old(self)@.tear_down(server@, bet@, credit_views(credits@))
                    && update_views(updates@) == credit_updates(
                    old(self)@.accounts,
                    server@,
                    credit_views(credits@),
                ),
                Err(e) => !fits(credit_all(old(self)@.accounts, server@, credit_views(credits@)))
                    && e@ == Failure::InternalError(StoreError::IntegralValueOutOfRange)
                    && final(self)@ == old(self)@,
            },
    {
        let ghost accounts = self@.accounts;
        let ghost due = credit_views(credits@);
        let ghost records = credit_updates(accounts, server@, due);
        let n = self.accounts.len();
        let mut balances: Vec<u32> = Vec::new();
        let mut i: usize = 0;
        while i < n
            invariant
                i <= n,
                balances.len() == i,
                forall|j: int| 0 <= j < i ==> balances[j] == accounts[j].balance,
            decreases n - i,
        {
            balances.push(self.accounts[i].balance);
            i += 1;
        }
        let mut updates: Vec<AccountUpdate> = Vec::new();
        let mut k: usize = 0;
        proof {
            if due.len() > 0 {
                lemma_credit_all_step(accounts, server@, due, 0);
            } else {
                assert(due.take(0) =~= due);
            }
            assert(update_views(updates@) =~= records.take(0));
        }
        while k < credits.len()
            invariant
                k <= credits.len(),
                balances.len() == n,
                credit_all(accounts, server@, due.take(k as int)).len() == n,
                forall|j: int|
                    0 <= j < n ==> balances[j] == (#[trigger] credit_all(
                        accounts,
                        server@,
                        due.take(k as int),
                    )[j]).balance,
                update_views(updates@) == records.take(k as int),
            decreases credits.len() - k,
        {
            let user = &credits[k].0;
            let amount = credits[k].1;
            let ghost paid = credit_all(accounts, server@, due.take(k as int));
            let ghost next = credit_all(accounts, server@, due.take(k + 1));
            proof {
                lemma_credit_all_step(accounts, server@, due, k as int);
                lemma_credit_all_holders(accounts, server@, due.take(k as int));
                lemma_credit_all_holders(accounts, server@, due.take(k + 1));
                assert(due[k as int].user == user@);
                assert(has_account(accounts, server@, credit_views(credits@)[k as int].user));
            }
            let at = match self.find_account(&server, user) {
                Some(at) => at,
                None => {
                    return Err(BetError::InternalError(StoreError::IntegralValueOutOfRange));
                },
            };
            proof {
                lemma_account_found(accounts, at as int, server@, user@);
            }
            let held = balances[at];
            assert(accounts[at as int].balance <= paid[at as int].balance);
            if held > u32::MAX - amount {
                proof {
                    lemma_credit_all_grows(accounts, server@, due, k + 1, at as int);
                    assert(next[at as int].balance == held + amount);
                }
                return Err(BetError::InternalError(StoreError::IntegralValueOutOfRange));
            }
            balances.set(at, held + amount);
            assert forall|j: int| 0 <= j < n implies balances[j] == (
            #[trigger] next[j]).balance by {
                if j != at && paid[j].server == server@ && paid[j].user == user@ {
                    assert(account_at(accounts, j, server@, user@));
                    lemma_account_found(accounts, j, server@, user@);
                }
            }
            let ghost before = updates@;
            let update = AccountUpdate {
                server: server.clone(),
                user: user.clone(),
                diff: amount as i64,
                balance: self.accounts[at].balance + amount,
            };
            updates.push(update);
            proof {
                assert(update_views(updates@) =~= update_views(before).push(records[k as int]));
                assert(records.take(k + 1) =~= records.take(k as int).push(records[k as int]));
            }
            k += 1;
        }
        proof {
            assert(due.take(credits.len() as int) =~= due);
            assert(records.take(credits.len() as int) =~= records);
            lemma_tear_down_wf(self@, server@, bet@, due);
        }
        let ghost paid = credit_all(accounts, server@, due);
        i = 0;
        while i < n
            invariant
                i <= n,
                n == self.accounts.len(),
                self.db_path == old(self).db_path,
                self.bets == old(self).bets,
                self.options == old(self).options,
                self.wagers == old(self).wagers,
                self.tombstones == old(self).tombstones,
                forall|j: int| 0 <= j < i ==> (#[trigger] self.accounts[j])@ == paid[j],
                forall|j: int| i <= j < n ==> (#[trigger] self.accounts[j])@ == accounts[j],
            decreases n - i,
        {
            proof {
                lemma_credit_all_holders(accounts, server@, due);
            }
            self.accounts[i].balance = balances[i];
            i += 1;
        }
        self.tombstones.push(TombstoneRow { server, bet });
        assert(self@.accounts =~= paid);
        assert(self@.tombstones =~= old(self)@.tombstones.push(
            Tombstone { server: server@, bet: bet@ },
        ));
        Ok(updates)
    }

    /// Where the account of `user` in `server` stands in its table.
    fn find_account(&self, server: &String, user: &String) -> (found: Option<usize>)
        ensures
            match found {
                Some(i) => account_at(self@.accounts, i as int, server@, user@),
                None => !self@.has_account(server@, user@),
            },
    {
        let mut i: usize = 0;
        while i < self.accounts.len()
            invariant
                i <= self.accounts.len(),
                forall|k: int| 0 <= k < i ==> !account_at(self@.accounts, k, server@, user@),
            decreases self.accounts.len() - i,
        {
            if self.accounts[i].server == *server && self.accounts[i].user == *user {
                return Some(i);
            }
            i += 1;
        }
        None
    }

    /// Where the bet `bet` of `server` stands in its table.
    fn find_bet(&self, server: &String, bet: &String) -> (found: Option<usize>)
        ensures
            match found {
                Some(i) => bet_at(self@.bets, i as int, server@, bet@),
                None => !self@.has_bet(server@, bet@),
            },
    {
        let mut i: usize = 0;
        while i < self.bets.len()
            invariant
                i <= self.bets.len(),
                forall|k: int| 0 <= k < i ==> !bet_at(self@.bets, k, server@, bet@),
            decreases self.bets.len() - i,
        {
            if self.bets[i].server == *server && self.bets[i].bet == *bet {
                return Some(i);
            }
            i += 1;
        }
        None
    }

    /// Where the option `option` of `server` stands in its table.
    fn find_option(&self, server: &String, option: &String) -> (found: Option<usize>)
        ensures
            match found {
                Some(i) => option_at(self@.options, i as int, server@, option@),
                None => !self@.has_option(server@, option@),
            },
    {
        let mut i: usize = 0;
        while i < self.options.len()
            invariant
                i <= self.options.len(),
                forall|k: int| 0 <= k < i ==> !option_at(self@.options, k, server@, option@),
            decreases self.options.len() - i,
        {
            if self.options[i].server == *server && self.options[i].option == *option {
                return Some(i);
            }
            i += 1;
        }
        None
    }

    /// Where the wager of `user` on the option `option` of `server` stands in
    /// its table.
    fn find_wager(&self, server: &String, option: &String, user: &String) -> (found: Option<
        usize,
    >)
        ensures
            match found {
                Some(i) => wager_at(self@.wagers, i as int, server@, option@, user@),
                None => !self@.has_wager(server@, option@, user@),
            },
    {
        let mut i: usize = 0;
        while i < self.wagers.len()
            invariant
                i <= self.wagers.len(),
                forall|k: int| 0 <= k < i ==> !wager_at(self@.wagers, k, server@, option@, user@),
            decreases self.wagers.len() - i,
        {
            if self.wagers[i].server == *server && self.wagers[i].option == *option
                && self.wagers[i].user == *user {
                return Some(i);
            }
            i += 1;
        }
        None
    }

    /// Whether the bet `bet` of `server` is marked as torn down.
    fn is_marked(&self, server: &String, bet: &String) -> (marked: bool)
        ensures
            marked == self@.is_torn_down(server@, bet@),
    {
        let mut i: usize = 0;
        while i < self.tombstones.len()
            invariant
                i <= self.tombstones.len(),
                forall|k: int| 0 <= k < i ==> !tombstone_at(self@.tombstones, k, server@, bet@),
            decreases self.tombstones.len() - i,
        {
            if self.tombstones[i].server == *server && self.tombstones[i].bet == *bet {
                assert(tombstone_at(self@.tombstones, i as int, server@, bet@));
                return true;
            }
            i += 1;
        }
        false
    }
}


} // verus!
