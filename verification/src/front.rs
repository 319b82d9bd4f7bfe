//! What the front of the ledger keeps for itself: what a bet looks like
//! before anyone has staked on it, and which thread tells which user about
//! the account.

use crate::bets::{option_views, texts, BetStatus, OptionStatus};
use crate::lemmas::{lemma_filter_map_step, lemma_filter_none};
use crate::model::{BetView, OptionView, StoreError, Text, PRIMARY_KEY_TAKEN};
use crate::utils::{allocation, lemma_sum_bounds, lemma_sum_take, lrm, nats, sum};
use vstd::prelude::*;

verus! {

/// An option that says `desc`, without a name and without wagers.
pub open spec fn blank_option(desc: Seq<char>) -> OptionView {
    OptionView { option: Seq::empty(), desc, wagers: Seq::empty() }
}

/// A bet without a name or a description, with one blank option for each
/// of `descs`.
pub open spec fn blank_bet(descs: Seq<Seq<char>>) -> BetView {
    BetView {
        bet: Seq::empty(),
        desc: Seq::empty(),
        options: descs.map_values(|d: Seq<char>| blank_option(d)),
    }
}

/// An option that says `option_desc`, on which nobody has staked.
pub fn option_stub(option_desc: &String) -> (stub: OptionStatus)
    ensures
        stub@ == blank_option(option_desc@),
{
    let stub = OptionStatus {
        option: String::new(),
        desc: option_desc.clone(),
        wagers: Vec::new(),
    };
    assert(stub@.wagers =~= Seq::empty());
    stub
}

/// A bet with the options that `options_desc` describes, on which nobody
/// has staked: what is shown of a bet before it is entered.
pub fn bet_stub(options_desc: &Vec<String>) -> (stub: BetStatus)
    ensures
        stub@ == blank_bet(options_desc@.map_values(|s: String| s@)),
{
    let ghost descs = options_desc@.map_values(|s: String| s@);
    let ghost goal = descs.map_values(|d: Seq<char>| blank_option(d));
    let mut options: Vec<OptionStatus> = Vec::new();
    let mut i: usize = 0;
    assert(option_views(options@) =~= goal.take(0));
    while i < options_desc.len()
        invariant
            i <= options_desc.len(),
            descs == options_desc@.map_values(|s: String| s@),
            goal == descs.map_values(|d: Seq<char>| blank_option(d)),
            option_views(options@) == goal.take(i as int),
        decreases options_desc.len() - i,
    {
        let ghost before = options@;
        options.push(option_stub(&options_desc[i]));
        assert(option_views(options@) =~= option_views(before).push(goal[i as int]));
        assert(goal.take(i + 1) =~= goal.take(i as int).push(goal[i as int]));
        i += 1;
    }
    assert(goal.take(options_desc.len() as int) =~= goal);
    BetStatus { bet: String::new(), desc: String::new(), options }
}


/// What is shown of an option in figures: its share of what is staked on
/// the bet, in whole percent that add up to a hundred, what is staked on
/// it, and how many have staked on it.
#[derive(Debug, Clone, Copy, PartialEq, Eq, Structural)]
pub struct OptionFigures {
    pub percent: u32,
    pub sum: u32,
    pub people: usize,
}

/// The amounts of the wagers on an option.
pub open spec fn option_stakes(option: OptionStatus) -> Seq<nat> {
    Seq::new(option.wagers@.len(), |i: int| option.wagers@[i].1 as nat)
}

/// What is staked on each option of a bet.
pub open spec fn option_sums(options: Seq<OptionStatus>) -> Seq<nat> {
    Seq::new(options.len(), |i: int| sum(option_stakes(options[i])))
}

/// What is staked on the option `option`, where it is an amount.
fn option_sum(option: &OptionStatus) -> (total: Option<u32>)
    ensures
        match total {
            Some(total) => total == sum(option_stakes(*option)),
            None => sum(option_stakes(*option)) > u32::MAX,
        },
{
    let ghost stakes = option_stakes(*option);
    let mut total: u32 = 0;
    let mut i: usize = 0;
    assert(stakes.take(0) =~= Seq::<nat>::empty());
    while i < option.wagers.len()
        invariant
            i <= option.wagers.len(),
            stakes == option_stakes(*option),
            total == sum(stakes.take(i as int)),
        decreases option.wagers.len() - i,
    {
        let amount = option.wagers[i].1;
        proof {
            lemma_sum_take(stakes, i as int);
            lemma_sum_bounds(stakes, i as int);
        }
        if total > u32::MAX - amount {
            return None;
        }
        total = total + amount;
        i += 1;
    }
    assert(stakes.take(stakes.len() as int) =~= stakes);
    Some(total)
}

/// The figures of every option of the bet, where what is staked on each is
/// an amount: the percents are a hundred, allocated in proportion to what is
/// staked on the options.
pub fn options_figures(bet_status: &BetStatus) -> (figures: Option<Vec<OptionFigures>>)
    ensures
        match figures {
            Some(figures) => {
                &&& figures.len() == bet_status.options.len()
                &&& forall|i: int|
                    0 <= i < figures.len() ==> {
                        &&& (#[trigger] figures[i]).sum == option_sums(bet_status.options@)[i]
                        &&& figures[i].people == bet_status.options[i].wagers.len()
                        &&& figures[i].percent == allocation(
                            100,
                            option_sums(bet_status.options@),
                        )[i]
                    }
            },
            None => exists|i: int|
                0 <= i < bet_status.options.len() && #[trigger] option_sums(
                    bet_status.options@,
                )[i] > u32::MAX,
        },
{
    let ghost goal = option_sums(bet_status.options@);
    let n = bet_status.options.len();
    let mut sums: Vec<u32> = Vec::new();
    let mut i: usize = 0;
    while i < n
        invariant
            i <= n,
            n == bet_status.options.len(),
            goal == option_sums(bet_status.options@),
            sums.len() == i,
            forall|k: int| 0 <= k < i ==> sums[k] == goal[k],
        decreases n - i,
    {
        match option_sum(&bet_status.options[i]) {
            Some(total) => sums.push(total),
            None => {
                assert(goal[i as int] > u32::MAX);
                return None;
            },
        }
        i += 1;
    }
    assert(nats(sums@) =~= goal);
    let percents = lrm(100, &sums);
    let mut figures: Vec<OptionFigures> = Vec::new();
    i = 0;
    while i < n
        invariant
            i <= n,
            n == bet_status.options.len(),
            goal == option_sums(bet_status.options@),
            sums.len() == n,
            percents.len() == n,
            nats(sums@) == goal,
            nats(percents@) == allocation(100, goal),
            figures.len() == i,
            forall|k: int|
                0 <= k < i ==> {
                    &&& (#[trigger] figures[k]).sum == goal[k]
                    &&& figures[k].people == bet_status.options[k].wagers.len()
                    &&& figures[k].percent == allocation(100, goal)[k]
                },
        decreases n - i,
    {
        assert(nats(sums@)[i as int] == sums[i as int]);
        assert(nats(percents@)[i as int] == percents[i as int]);
        figures.push(
            OptionFigures {
                percent: percents[i],
                sum: sums[i],
                people: bet_status.options[i].wagers.len(),
            },
        );
        i += 1;
    }
    Some(figures)
}

/// The thread that tells a user of a server about the account.
#[derive(Debug, Clone, PartialEq, Eq)]
pub struct ThreadRow {
    pub server: String,
    pub user: String,
    pub thread: String,
}

/// A row of the thread table as a mathematical object.
pub struct Thread {
    pub server: Text,
    pub user: Text,
    pub thread: Text,
}

impl View for ThreadRow {
    type V = Thread;

    open spec fn view(&self) -> Thread {
        Thread { server: self.server@, user: self.user@, thread: self.thread@ }
    }
}

/// Why the front could not do what it was asked.
#[derive(Debug, Clone, PartialEq, Eq)]
pub enum FrontError {
    /// No thread is known for the user.
    NotFound,
    /// Permissions are missing: these, as the bits that stand for them.
    LackPermission(u64),
    /// The user has a thread already.
    AlreadyExists,
    /// Anything else, in words.
    InternalError(String),
}

/// Row `i` is the thread of `user` in `server`.
pub open spec fn thread_at(threads: Seq<Thread>, i: int, server: Text, user: Text) -> bool {
    0 <= i < threads.len() && threads[i].server == server && threads[i].user == user
}

/// A thread is known for `user` in `server`.
pub open spec fn has_thread(threads: Seq<Thread>, server: Text, user: Text) -> bool {
    exists|i: int| thread_at(threads, i, server, user)
}

/// The thread of `user` in `server`.
pub open spec fn thread_of(threads: Seq<Thread>, server: Text, user: Text) -> Text {
    threads[choose|i: int| thread_at(threads, i, server, user)].thread
}

/// No user has two threads in one server.
pub open spec fn threads_unique(threads: Seq<Thread>) -> bool {
    forall|i: int, j: int|
        #![trigger threads[i], threads[j]]
        0 <= i < j < threads.len() ==> !(threads[i].server == threads[j].server
            && threads[i].user == threads[j].user)
}

/// The threads after `thread` has been made the thread of `user` in
/// `server`, in place of the one that the user had or as a new one.
pub open spec fn with_thread(threads: Seq<Thread>, server: Text, user: Text, thread: Text) -> Seq<
    Thread,
> {
    if has_thread(threads, server, user) {
        threads.map_values(
            |t: Thread|
                if t.server == server && t.user == user {
                    Thread { thread, ..t }
                } else {
                    t
                },
        )
    } else {
        threads.push(Thread { server, user, thread })
    }
}

/// The threads of the users of `server`, in table order.
pub open spec fn threads_of(threads: Seq<Thread>, server: Text) -> Seq<Text> {
    threads.filter(|t: Thread| t.server == server).map_values(|t: Thread| t.thread)
}

/// The threads through which users are told about their accounts.
#[derive(Debug, Clone)]
pub struct Front {
    db_path: String,
    threads: Vec<ThreadRow>,
}

impl View for Front {
    type V = Seq<Thread>;

    closed spec fn view(&self) -> Seq<Thread> {
        self.threads@.map_values(|r: ThreadRow| r@)
    }
}

impl Front {
    /// No user has two threads in one server.
    pub open spec fn wf(&self) -> bool {
        threads_unique(self@)
    }

    /// The name under which the threads are kept.
    pub closed spec fn path(&self) -> Seq<char> {
        self.db_path@
    }

    /// No threads, to be kept under `db_path`.
    pub fn new(db_path: &str) -> (res: Result<Front, FrontError>)
        ensures
            res matches Ok(front) && front@ == Seq::<Thread>::empty() && front.wf() && front.path()
                == db_path@,
    {
        let front = Front { db_path: db_path.to_owned(), threads: Vec::new() };
        assert(front@ =~= Seq::<Thread>::empty());
        Ok(front)
    }

    /// The name under which the threads are kept.
    pub fn db_path(&self) -> (name: &str)
        ensures
            name@ == self.path(),
    {
        self.db_path.as_str()
    }

    /// The rows of the thread table.
    pub fn thread_rows(&self) -> (rows: &Vec<ThreadRow>)
        ensures
            rows@.map_values(|r: ThreadRow| r@) == self@,
    {
        &self.threads
    }

    /// Where the thread of `user` in `server` stands in the table.
    fn find(&self, server: &String, user: &String) -> (found: Option<usize>)
        ensures
            match found {
                Some(i) => thread_at(self@, i as int, server@, user@),
                None => !has_thread(self@, server@, user@),
            },
    {
        let mut i: usize = 0;
        while i < self.threads.len()
            invariant
                i <= self.threads.len(),
                forall|k: int| 0 <= k < i ==> !thread_at(self@, k, server@, user@),
            decreases self.threads.len() - i,
        {
            if self.threads[i].server == *server && self.threads[i].user == *user {
                return Some(i);
            }
            i += 1;
        }
        None
    }

    /// Makes `thread` the thread of `user` in `server`.
    pub fn set(&mut self, server: &str, user: &str, thread: &str) -> (res: Result<(), FrontError>)
        requires
            old(self).wf(),
        ensures
            final(self).wf(),
            final(self).path() == old(self).path(),
            res is Ok,
            final(self)@ == with_thread(old(self)@, server@, user@, thread@),
    {
        let server = server.to_owned();
        let user = user.to_owned();
        match self.find(&server, &user) {
            Some(i) => {
                self.threads[i].thread = thread.to_owned();
                assert(self@ =~= with_thread(old(self)@, server@, user@, thread@)) by {
                    assert forall|k: int| 0 <= k < old(self)@.len() && k != i implies !((
                    #[trigger] old(self)@[k]).server == server@ && old(self)@[k].user == user@) by {
                        if k < i {
                            assert(!(old(self)@[k].server == old(self)@[i as int].server && old(
                                self,
                            )@[k].user == old(self)@[i as int].user));
                        } else {
                            assert(!(old(self)@[i as int].server == old(self)@[k].server && old(
                                self,
                            )@[i as int].user == old(self)@[k].user));
                        }
                    }
                }
                assert forall|a: int, b: int| 0 <= a < b < self@.len() implies !(self@[a].server
                    == self@[b].server && self@[a].user == self@[b].user) by {
                    assert(!(old(self)@[a].server == old(self)@[b].server && old(self)@[a].user
                        == old(self)@[b].user));
                }
            },
            None => {
                self.threads.push(ThreadRow { server, user, thread: thread.to_owned() });
                assert(self@ =~= with_thread(old(self)@, server@, user@, thread@));
                assert forall|a: int, b: int| 0 <= a < b < self@.len() implies !(self@[a].server
                    == self@[b].server && self@[a].user == self@[b].user) by {
                    if b == old(self)@.len() {
                        assert(!thread_at(old(self)@, a, server@, user@));
                    } else {
                        assert(!(old(self)@[a].server == old(self)@[b].server && old(self)@[a].user
                            == old(self)@[b].user));
                    }
                }
            },
        }
        Ok(())
    }

    /// The thread of `user` in `server`.
    pub fn get(&self, server: &str, user: &str) -> (res: Result<String, FrontError>)
        requires
            self.wf(),
        ensures
            match res {
                Ok(thread) => has_thread(self@, server@, user@) && thread@ == thread_of(
                    self@,
                    server@,
                    user@,
                ),
                Err(e) => !has_thread(self@, server@, user@) && e is NotFound,
            },
    {
        let server = server.to_owned();
        let user = user.to_owned();
        match self.find(&server, &user) {
            Some(i) => {
                proof {
                    let j = choose|j: int| thread_at(self@, j, server@, user@);
                    if i < j {
                        assert(!(self@[i as int].server == self@[j].server && self@[i as int].user
                            == self@[j].user));
                    } else if j < i {
                        assert(!(self@[j].server == self@[i as int].server && self@[j].user
                            == self@[i as int].user));
                    }
                }
                Ok(self.threads[i].thread.clone())
            },
            None => Err(FrontError::NotFound),
        }
    }

    /// The threads of the users of `server`.
    #[verifier::loop_isolation(false)]
    pub fn get_all(&self, server: &str) -> (res: Result<Vec<String>, FrontError>)
        ensures
            res matches Ok(threads) && texts(threads@) == threads_of(self@, server@),
    {
        let server = server.to_owned();
        let ghost rows = self@;
        let ghost keep = |t: Thread| t.server == server@;
        let ghost name = |t: Thread| t.thread;
        let mut threads: Vec<String> = Vec::new();
        proof {
            lemma_filter_none(rows, keep);
            assert(texts(threads@) =~= rows.take(0).filter(keep).map_values(name));
        }
        let mut i: usize = 0;
        while i < self.threads.len()
            invariant
                i <= self.threads.len(),
                texts(threads@) == rows.take(i as int).filter(keep).map_values(name),
            decreases self.threads.len() - i,
        {
            let row = &self.threads[i];
            proof {
                lemma_filter_map_step(rows, keep, name, i as int);
            }
            if row.server == server {
                let ghost before = threads@;
                threads.push(row.thread.clone());
                assert(texts(threads@) =~= texts(before).push(rows[i as int].thread));
            }
            i += 1;
        }
        Ok(threads)
    }
}

/// What a failure of the store means to a caller of the front: a second
/// row under one primary key is something that exists already, a query that
/// found no row is something that is not there, and for anything else the
/// words that the caller has for it are kept.
pub fn front_failure(err: StoreError, words: String) -> (failure: FrontError)
    ensures
        match err {
            StoreError::SqliteFailure(code) => if code == PRIMARY_KEY_TAKEN {
                failure is AlreadyExists
            } else {
                failure == FrontError::InternalError(words)
            },
            StoreError::QueryReturnedNoRows => failure is NotFound,
            _ => failure == FrontError::InternalError(words),
        },
{
    match err {
        StoreError::SqliteFailure(code) => {
            if code == PRIMARY_KEY_TAKEN {
                FrontError::AlreadyExists
            } else {
                FrontError::InternalError(words)
            }
        },
        StoreError::QueryReturnedNoRows => FrontError::NotFound,
        _ => FrontError::InternalError(words),
    }
}

} // verus!
