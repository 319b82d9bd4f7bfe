//! A virtual-currency wagering ledger: accounts, multi-option bets, the
//! wagers on them, and the settlement of a bet's pool among its winners.
//!
//! The ledger is a set of tables with constraints between them ([`model`]),
//! held in memory and changed only by operations that keep the constraints
//! and say exactly what they change ([`bets`]). What holds of the ledger
//! whatever is done with it is proved in [`laws`]: money is neither made nor
//! lost, stakes add up, nobody is on two sides of a bet, and a bet that is
//! torn down stays out of reach; [`accounting`] and [`lemmas`] hold what
//! these proofs stand on. The pool of a bet is shared by the largest
//! remainder method ([`utils`]), which hands out what is left by rank
//! ([`ranking`]).
//!
//! Around the ledger stand the small things that a front end needs of it:
//! the share of a balance that a click stakes ([`amount`]), the figures under
//! an option and the threads that tell users about their accounts
//! ([`front`]), texts cut to length ([`front_utils`]), the names under which
//! actions travel as text ([`serialize_utils`], over the decimal numbers of
//! [`numbers`]), the words of the command that opens a bet
//! ([`betting_commands`]), the buttons and what a click on them asks for
//! ([`handler_utils`]), the leaderboard ([`handler`]), and the settings
//! ([`config`]).

pub mod accounting;
pub mod amount;
pub mod bets;
pub mod betting_commands;
pub mod config;
pub mod front;
pub mod front_utils;
pub mod handler;
pub mod handler_utils;
pub mod laws;
pub mod lemmas;
pub mod model;
pub mod numbers;
pub mod ranking;
pub mod serialize_utils;
pub mod utils;
