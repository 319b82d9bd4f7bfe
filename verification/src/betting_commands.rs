//! What the command that opens a bet is given: a description and the
//! outcomes, written as words the way a shell would take them.

use crate::bets::texts;
use vstd::prelude::*;

verus! {

/// Why a command cannot be carried out.
#[derive(Debug, Clone, Copy, PartialEq, Eq, Structural)]
pub enum CommandError {
    /// A quote in the outcomes is never closed.
    MismatchedQuotes,
    /// The bet has fewer than two outcomes.
    TooFewOutcomes,
}

/// The least number of outcomes that make a bet.
pub const MIN_OUTCOMES: usize = 2;

/// The words that `shellwords::split` makes of a text, or nothing where it
/// finds a quote that is never closed.
pub uninterp spec fn shell_words(input: Seq<char>) -> Option<Seq<Seq<char>>>;

/// `shellwords::split`: the words of `input` as the Bourne shell would take
/// them, with quotes and backslashes resolved, or nothing where a quote is
/// never closed. The words are a function of the text alone, which is all
/// that is claimed of them here.
#[verifier::external_body]
fn split(input: &str) -> (words: Option<Vec<String>>)
    ensures
        match words {
            Some(words) => shell_words(input@) == Some(texts(words@)),
            None => shell_words(input@) is None,
        },
{
    shellwords::split(input).ok()
}

/// What a bet is opened with, given the words that its outcomes were split
/// into: the description and the words, where the split has succeeded.
pub fn bet_of_words(desc: String, words: Option<Vec<String>>) -> (res: Result<
    (String, Vec<String>),
    CommandError,
>)
    ensures
        match res {
            Ok((d, outcomes)) => words == Some(outcomes) && d == desc,
            Err(e) => words is None && e == CommandError::MismatchedQuotes,
        },
{
    match words {
        Some(outcomes) => Ok((desc, outcomes)),
        None => Err(CommandError::MismatchedQuotes),
    }
}

/// The description of a bet and its outcomes, as the command gives them:
/// a description that is missing is empty, and the outcomes are the words of
/// their text, of which a missing one has none.
pub fn bet_parse(desc: Option<String>, outcomes: Option<String>) -> (res: Result<
    (String, Vec<String>),
    CommandError,
>)
    ensures
        match res {
            Ok((d, words)) => {
                &&& d@ == (match desc {
                    Some(given) => given@,
                    None => Seq::<char>::empty(),
                })
                &&& shell_words(
                    match outcomes {
                        Some(given) => given@,
                        None => Seq::<char>::empty(),
                    },
                ) == Some(texts(words@))
            },
            Err(e) => e == CommandError::MismatchedQuotes && shell_words(
                match outcomes {
                    Some(given) => given@,
                    None => Seq::<char>::empty(),
                },
            ) is None,
        },
{
    let desc = match desc {
        Some(given) => given,
        None => String::new(),
    };
    let raw = match outcomes {
        Some(given) => given,
        None => String::new(),
    };
    let words = split(raw.as_str());
    bet_of_words(desc, words)
}

/// Whether `outcomes` are enough to make a bet: a bet has two outcomes or
/// more.
pub fn check_outcomes(outcomes: &Vec<String>) -> (res: Result<(), CommandError>)
    ensures
        match res {
            Ok(_) => outcomes.len() >= MIN_OUTCOMES,
            Err(e) => outcomes.len() < MIN_OUTCOMES && e == CommandError::TooFewOutcomes,
        },
{
    if outcomes.len() < MIN_OUTCOMES {
        Err(CommandError::TooFewOutcomes)
    } else {
        Ok(())
    }
}

} // verus!
