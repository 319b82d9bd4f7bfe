//! The names under which the actions on a bet travel as text, written and
//! read back.

use crate::numbers::{
    chars_of, decimal, is_digit, lemma_decimal_reads_back, number, read_decimal, write_decimal,
};
use vstd::prelude::*;

verus! {

/// The name of the action that locks a bet.
pub const LOCK: &'static str = "lock";

/// The name of the action that asks what to stake on an outcome.
pub const BET_CLICK: &'static str = "bet_click";

/// The name of the action that settles a bet on an outcome.
pub const RESOLVE: &'static str = "resolve";

/// The name of the action that calls a bet off.
pub const ABORT: &'static str = "abort";

/// The name of the action that places a stake.
pub const BET_ORDER: &'static str = "bet_order";

/// One outcome of one bet, each by its number.
#[derive(Debug, Clone, Copy, PartialEq, Eq, Structural)]
pub struct BetOutcome {
    pub bet_id: u64,
    pub outcome_id: usize,
}

/// What can be asked for on a bet.
#[derive(Debug, Clone, Copy, PartialEq, Eq, Structural)]
pub enum BetAction {
    Lock,
    Abort,
    BetClick(BetOutcome),
    Resolve(BetOutcome),
    BetOrder,
}

/// Why a text names no action or no outcome.
#[derive(Debug, Clone, Copy, PartialEq, Eq, Structural)]
pub enum ParseError {
    /// The text has no dash between an action and its data.
    NotAnAction,
    /// What stands before the dash is not the name of an action.
    UnknownAction,
    /// The text has no dash between a bet and an outcome.
    NotAnOutcome,
    /// What should be a number is none, or one too large.
    InvalidNumber,
}

/// Where `c` first stands in `s`: the length of `s` where it does not.
pub open spec fn first_index(s: Seq<char>, c: char) -> int
    decreases s.len(),
{
    if s.len() == 0 || s[0] == c {
        0
    } else {
        1 + first_index(s.skip(1), c)
    }
}

/// Where `c` last stands in `s`: `-1` where it does not.
pub open spec fn last_index(s: Seq<char>, c: char) -> int
    decreases s.len(),
{
    if s.len() == 0 {
        -1
    } else if s.last() == c {
        s.len() - 1
    } else {
        last_index(s.drop_last(), c)
    }
}

/// An outcome as text: the number of the bet, a dash, the number of the
/// outcome.
pub open spec fn outcome_text(outcome: BetOutcome) -> Seq<char> {
    decimal(outcome.bet_id as nat) + seq!['-'] + decimal(outcome.outcome_id as nat)
}

/// The outcome that a text names: what stands before its last dash is the
/// number of the bet, what stands after it the number of the outcome.
pub open spec fn outcome_read(s: Seq<char>) -> Result<BetOutcome, ParseError> {
    let dash = last_index(s, '-');
    if dash < 0 {
        Err(ParseError::NotAnOutcome)
    } else {
        match (number(s.take(dash)), number(s.skip(dash + 1))) {
            (Some(bet), Some(outcome)) => if bet <= u64::MAX && outcome <= usize::MAX {
                Ok(BetOutcome { bet_id: bet as u64, outcome_id: outcome as usize })
            } else {
                Err(ParseError::InvalidNumber)
            },
            _ => Err(ParseError::InvalidNumber),
        }
    }
}

/// An action as text: its name, a dash, and the outcome that it is about
/// where it is about one.
pub open spec fn action_text(action: BetAction) -> Seq<char> {
    match action {
        BetAction::Lock => LOCK@ + seq!['-'],
        BetAction::Abort => ABORT@ + seq!['-'],
        BetAction::BetClick(outcome) => BET_CLICK@ + seq!['-'] + outcome_text(outcome),
        BetAction::Resolve(outcome) => RESOLVE@ + seq!['-'] + outcome_text(outcome),
        BetAction::BetOrder => BET_ORDER@ + seq!['-'],
    }
}

/// The action that a text names: what stands before its first dash is the
/// name of the action, what stands after it the outcome where the action is
/// about one.
pub open spec fn action_read(s: Seq<char>) -> Result<BetAction, ParseError> {
    let dash = first_index(s, '-');
    let name = s.take(dash);
    let data = s.skip(dash + 1);
    if dash >= s.len() {
        Err(ParseError::NotAnAction)
    } else if name == LOCK@ {
        Ok(BetAction::Lock)
    } else if name == BET_CLICK@ {
        match outcome_read(data) {
            Ok(outcome) => Ok(BetAction::BetClick(outcome)),
            Err(e) => Err(e),
        }
    } else if name == RESOLVE@ {
        match outcome_read(data) {
            Ok(outcome) => Ok(BetAction::Resolve(outcome)),
            Err(e) => Err(e),
        }
    } else if name == ABORT@ {
        Ok(BetAction::Abort)
    } else if name == BET_ORDER@ {
        Ok(BetAction::BetOrder)
    } else {
        Err(ParseError::UnknownAction)
    }
}

/// A character that stands at `i` with none like it before is the first.
pub proof fn lemma_first_index(s: Seq<char>, c: char, i: int)
    requires
        0 <= i <= s.len(),
        forall|j: int| 0 <= j < i ==> s[j] != c,
        i == s.len() || s[i] == c,
    ensures
        first_index(s, c) == i,
    decreases i,
{
    if i > 0 {
        let rest = s.skip(1);
        assert forall|j: int| 0 <= j < i - 1 implies rest[j] != c by {
            assert(rest[j] == s[j + 1]);
        }
        lemma_first_index(rest, c, i - 1);
    }
}

/// A character that stands at `i` with none like it after is the last.
pub proof fn lemma_last_index(s: Seq<char>, c: char, i: int)
    requires
        -1 <= i < s.len(),
        forall|j: int| i < j < s.len() ==> s[j] != c,
        i == -1 || s[i] == c,
    ensures
        last_index(s, c) == i,
    decreases s.len(),
{
    if s.len() > 0 && i < s.len() - 1 {
        lemma_last_index(s.drop_last(), c, i);
    }
}

/// An outcome that is written as text is read back from the text.
pub proof fn law_outcome_reads_back(outcome: BetOutcome)
    ensures
        outcome_read(outcome_text(outcome)) == Ok::<BetOutcome, ParseError>(outcome),
{
    let bet = decimal(outcome.bet_id as nat);
    let which = decimal(outcome.outcome_id as nat);
    let s = outcome_text(outcome);
    lemma_decimal_reads_back(outcome.bet_id as nat);
    lemma_decimal_reads_back(outcome.outcome_id as nat);
    let dash = bet.len() as int;
    assert(s[dash] == '-');
    assert forall|j: int| dash < j < s.len() implies s[j] != '-' by {
        assert(s[j] == which[j - dash - 1]);
        assert(is_digit(which[j - dash - 1]));
    }
    lemma_last_index(s, '-', dash);
    assert(s.take(dash) =~= bet);
    assert(s.skip(dash + 1) =~= which);
}

/// No name of an action holds a dash.
proof fn lemma_names()
    ensures
        LOCK@ == seq!['l', 'o', 'c', 'k'],
        ABORT@ == seq!['a', 'b', 'o', 'r', 't'],
        RESOLVE@ == seq!['r', 'e', 's', 'o', 'l', 'v', 'e'],
        BET_CLICK@ == seq!['b', 'e', 't', '_', 'c', 'l', 'i', 'c', 'k'],
        BET_ORDER@ == seq!['b', 'e', 't', '_', 'o', 'r', 'd', 'e', 'r'],
{
    reveal_strlit("lock");
    reveal_strlit("abort");
    reveal_strlit("resolve");
    reveal_strlit("bet_click");
    reveal_strlit("bet_order");
    assert(LOCK@ =~= seq!['l', 'o', 'c', 'k']);
    assert(ABORT@ =~= seq!['a', 'b', 'o', 'r', 't']);
    assert(RESOLVE@ =~= seq!['r', 'e', 's', 'o', 'l', 'v', 'e']);
    assert(BET_CLICK@ =~= seq!['b', 'e', 't', '_', 'c', 'l', 'i', 'c', 'k']);
    assert(BET_ORDER@ =~= seq!['b', 'e', 't', '_', 'o', 'r', 'd', 'e', 'r']);
}

/// A text that begins with a name without a dash, and then a dash, has its
/// first dash after the name.
proof fn lemma_named(name: Seq<char>, data: Seq<char>)
    requires
        forall|j: int| 0 <= j < name.len() ==> name[j] != '-',
    ensures
        first_index(name + seq!['-'] + data, '-') == name.len(),
        (name + seq!['-'] + data).take(name.len() as int) == name,
        (name + seq!['-'] + data).skip(name.len() as int + 1) == data,
{
    let s = name + seq!['-'] + data;
    let dash = name.len() as int;
    assert(s[dash] == '-');
    assert forall|j: int| 0 <= j < dash implies s[j] != '-' by {
        assert(s[j] == name[j]);
    }
    lemma_first_index(s, '-', dash);
    assert(s.take(dash) =~= name);
    assert(s.skip(dash + 1) =~= data);
}

/// An action that is written as text is read back from the text.
pub proof fn law_action_reads_back(action: BetAction)
    ensures
        action_read(action_text(action)) == Ok::<BetAction, ParseError>(action),
{
    lemma_names();
    match action {
        BetAction::Lock => {
            lemma_named(LOCK@, Seq::empty());
            assert(action_text(action) =~= LOCK@ + seq!['-'] + Seq::<char>::empty());
        },
        BetAction::Abort => {
            lemma_named(ABORT@, Seq::empty());
            assert(action_text(action) =~= ABORT@ + seq!['-'] + Seq::<char>::empty());
        },
        BetAction::BetOrder => {
            lemma_named(BET_ORDER@, Seq::empty());
            assert(action_text(action) =~= BET_ORDER@ + seq!['-'] + Seq::<char>::empty());
        },
        BetAction::BetClick(outcome) => {
            lemma_named(BET_CLICK@, outcome_text(outcome));
            law_outcome_reads_back(outcome);
        },
        BetAction::Resolve(outcome) => {
            lemma_named(RESOLVE@, outcome_text(outcome));
            law_outcome_reads_back(outcome);
        },
    }
}

/// Whether the first `upto` characters of `text` are the text `name`.
fn is_named(text: &Vec<char>, upto: usize, name: &str) -> (same: bool)
    requires
        upto <= text.len(),
    ensures
        same == (text@.take(upto as int) == name@),
{
    let letters = chars_of(name);
    if letters.len() != upto {
        return false;
    }
    let mut i: usize = 0;
    while i < upto
        invariant
            i <= upto,
            upto <= text.len(),
            letters.len() == upto,
            letters@ == name@,
            forall|j: int| 0 <= j < i ==> text[j] == letters[j],
        decreases upto - i,
    {
        if text[i] != letters[i] {
            assert(text@.take(upto as int)[i as int] != name@[i as int]);
            return false;
        }
        i += 1;
    }
    assert(text@.take(upto as int) =~= name@);
    true
}

/// Reads the outcome that the characters of `text` from `from` on name.
fn read_outcome(text: &Vec<char>, from: usize) -> (res: Result<BetOutcome, ParseError>)
    requires
        from <= text.len(),
    ensures
        res == outcome_read(text@.skip(from as int)),
{
    let ghost s = text@.skip(from as int);
    let mut at = text.len();
    while at > from && text[at - 1] != '-'
        invariant
            from <= at <= text.len(),
            forall|j: int| at <= j < text.len() ==> text[j] != '-',
        decreases at,
    {
        at -= 1;
    }
    if at == from {
        proof {
            lemma_last_index(s, '-', -1);
        }
        return Err(ParseError::NotAnOutcome);
    }
    let dash = at - 1;
    proof {
        lemma_last_index(s, '-', dash - from);
        assert(s.take(dash - from) =~= text@.subrange(from as int, dash as int));
        assert(s.skip(dash - from + 1) =~= text@.subrange(dash + 1, text.len() as int));
    }
    let bet = match read_decimal(text, from, dash) {
        Some(bet) => bet,
        None => {
            return Err(ParseError::InvalidNumber);
        },
    };
    let which = match read_decimal(text, dash + 1, text.len()) {
        Some(which) => which,
        None => {
            return Err(ParseError::InvalidNumber);
        },
    };
    if which > usize::MAX as u64 {
        return Err(ParseError::InvalidNumber);
    }
    Ok(BetOutcome { bet_id: bet, outcome_id: which as usize })
}

impl BetOutcome {
    /// The outcome as text.
    pub fn to_string(&self) -> (text: String)
        ensures
            text@ == outcome_text(*self),
    {
        let mut text = String::new();
        write_decimal(&mut text, self.bet_id);
        text.append("-");
        write_decimal(&mut text, self.outcome_id as u64);
        proof {
            reveal_strlit("-");
            assert("-"@ =~= seq!['-']);
            assert(text@ =~= outcome_text(*self));
        }
        text
    }

    /// The outcome that `value` names.
    pub fn try_from(value: &str) -> (res: Result<BetOutcome, ParseError>)
        ensures
            res == outcome_read(value@),
    {
        let text = chars_of(value);
        assert(text@.skip(0) =~= text@);
        read_outcome(&text, 0)
    }
}

impl BetAction {
    /// The action as text.
    pub fn to_string(&self) -> (text: String)
        ensures
            text@ == action_text(*self),
    {
        let mut text = String::new();
        proof {
            reveal_strlit("-");
            assert("-"@ =~= seq!['-']);
        }
        match self {
            BetAction::Lock => {
                text.append(LOCK);
                text.append("-");
            },
            BetAction::BetClick(outcome) => {
                text.append(BET_CLICK);
                text.append("-");
                let data = outcome.to_string();
                text.append(data.as_str());
            },
            BetAction::Resolve(outcome) => {
                text.append(RESOLVE);
                text.append("-");
                let data = outcome.to_string();
                text.append(data.as_str());
            },
            BetAction::Abort => {
                text.append(ABORT);
                text.append("-");
            },
            BetAction::BetOrder => {
                text.append(BET_ORDER);
                text.append("-");
            },
        }
        assert(text@ =~= action_text(*self));
        text
    }

    /// The action that `value` names.
    pub fn try_from(value: String) -> (res: Result<BetAction, ParseError>)
        ensures
            res == action_read(value@),
    {
        let text = chars_of(value.as_str());
        let mut dash: usize = 0;
        while dash < text.len() && text[dash] != '-'
            invariant
                dash <= text.len(),
                forall|j: int| 0 <= j < dash ==> text[j] != '-',
            decreases text.len() - dash,
        {
            dash += 1;
        }
        proof {
            lemma_first_index(text@, '-', dash as int);
        }
        if dash == text.len() {
            return Err(ParseError::NotAnAction);
        }
        if is_named(&text, dash, LOCK) {
            Ok(BetAction::Lock)
        } else if is_named(&text, dash, BET_CLICK) {
            match read_outcome(&text, dash + 1) {
                Ok(outcome) => Ok(BetAction::BetClick(outcome)),
                Err(e) => Err(e),
            }
        } else if is_named(&text, dash, RESOLVE) {
            match read_outcome(&text, dash + 1) {
                Ok(outcome) => Ok(BetAction::Resolve(outcome)),
                Err(e) => Err(e),
            }
        } else if is_named(&text, dash, ABORT) {
            Ok(BetAction::Abort)
        } else if is_named(&text, dash, BET_ORDER) {
            Ok(BetAction::BetOrder)
        } else {
            Err(ParseError::UnknownAction)
        }
    }
}

} // verus!
