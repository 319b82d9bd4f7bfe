//! The buttons under a bet and under each of its outcomes, and what a click
//! on a button asks for.

use crate::numbers::{chars_of, number, read_decimal};
use vstd::prelude::*;

verus! {

/// The state of a bet that is locked, and the name of the button that locks
/// it.
pub const LOCK: &'static str = "lock";

/// The state of a bet that is called off, and the name of the button that
/// calls it off.
pub const ABORT: &'static str = "abort";

/// The state of a bet that is settled, and the name of the button that
/// settles it.
pub const WIN: &'static str = "win";

/// The state of a bet that takes stakes.
pub const OPEN: &'static str = "open";

/// The name of the button that cancels a reset.
pub const CANCEL: &'static str = "cancel";

/// The name of the button that resets a server.
pub const RESET: &'static str = "reset";

/// The name of the button that stakes.
pub const BET: &'static str = "bet";

/// A button that can stand under a message.
#[derive(Debug, Clone, Copy, PartialEq, Eq, Structural)]
pub enum Button {
    Lock,
    Abort,
    Bet,
    Win,
}

/// What a click asks for.
#[derive(Debug, Clone, Copy, PartialEq, Eq, Structural)]
pub enum Click {
    /// A stake of the share that stands at this place among the shares on
    /// offer.
    Stake(usize),
    /// Not to reset after all.
    Cancel,
    /// To reset the server.
    Reset,
    /// To lock the bet.
    Lock,
    /// To call the bet off.
    Abort,
    /// To settle the bet on the outcome.
    Win,
    /// Nothing that is known.
    Other,
}

/// Who may ask for something.
#[derive(Debug, Clone, Copy, PartialEq, Eq, Structural)]
pub enum Right {
    /// Whoever clicks.
    Anyone,
    /// An administrator of the server.
    Admin,
    /// Whoever opened the bet.
    Author,
}

/// The buttons under a bet in the state `status`, or no row of buttons at
/// all: a bet that is settled or called off has none, a locked bet can be
/// called off, and any other can be locked or called off.
pub open spec fn bet_row(status: Seq<char>) -> Option<Seq<Button>> {
    if status == WIN@ || status == ABORT@ {
        None
    } else if status == LOCK@ {
        Some(seq![Button::Abort])
    } else {
        Some(seq![Button::Lock, Button::Abort])
    }
}

/// The buttons under an outcome of a bet in the state `status`, or no row
/// of buttons at all: a bet that is settled or called off has none, an open
/// bet takes stakes, a locked bet can be settled, and any other has an empty
/// row.
pub open spec fn outcome_row(status: Seq<char>) -> Option<Seq<Button>> {
    if status == WIN@ || status == ABORT@ {
        None
    } else if status == OPEN@ {
        Some(seq![Button::Bet])
    } else if status == LOCK@ {
        Some(seq![Button::Win])
    } else {
        Some(Seq::empty())
    }
}

/// What a click on the button named `button` asks for: a number asks for
/// the stake at that place, and the names of the other buttons for what they
/// say.
pub open spec fn click_meaning(button: Seq<char>) -> Click {
    match number(button) {
        Some(place) if place <= usize::MAX => Click::Stake(place as usize),
        _ => if button == CANCEL@ {
            Click::Cancel
        } else if button == RESET@ {
            Click::Reset
        } else if button == LOCK@ {
            Click::Lock
        } else if button == ABORT@ {
            Click::Abort
        } else if button == WIN@ {
            Click::Win
        } else {
            Click::Other
        },
    }
}

/// Who may ask for what a click asks for: anyone may stake, an
/// administrator may reset or cancel the reset, and the author of a bet may
/// lock it, call it off or settle it.
pub open spec fn needed_right(click: Click) -> Right {
    match click {
        Click::Stake(_) | Click::Other => Right::Anyone,
        Click::Cancel | Click::Reset => Right::Admin,
        Click::Lock | Click::Abort | Click::Win => Right::Author,
    }
}

/// Whether two texts are the same.
fn same(a: &str, b: &str) -> (same: bool)
    ensures
        same == (a@ == b@),
{
    let a = a.to_owned();
    let b = b.to_owned();
    a == b
}

/// The buttons under a bet in the state `status`, where it has a row of
/// buttons.
pub fn bet_components(status: &str) -> (row: Option<Vec<Button>>)
    ensures
        match row {
            Some(buttons) => bet_row(status@) == Some(buttons@),
            None => bet_row(status@) is None,
        },
{
    if same(status, WIN) || same(status, ABORT) {
        return None;
    }
    let mut buttons: Vec<Button> = Vec::new();
    if !same(status, LOCK) {
        buttons.push(Button::Lock);
    }
    buttons.push(Button::Abort);
    proof {
        if status@ == LOCK@ {
            assert(buttons@ =~= seq![Button::Abort]);
        } else {
            assert(buttons@ =~= seq![Button::Lock, Button::Abort]);
        }
    }
    Some(buttons)
}

/// The buttons under an outcome of a bet in the state `status`, where it
/// has a row of buttons.
pub fn outcome_components(status: &str) -> (row: Option<Vec<Button>>)
    ensures
        match row {
            Some(buttons) => outcome_row(status@) == Some(buttons@),
            None => outcome_row(status@) is None,
        },
{
    if same(status, WIN) || same(status, ABORT) {
        return None;
    }
    let mut buttons: Vec<Button> = Vec::new();
    if same(status, OPEN) {
        buttons.push(Button::Bet);
        assert(buttons@ =~= seq![Button::Bet]);
    } else if same(status, LOCK) {
        buttons.push(Button::Win);
        assert(buttons@ =~= seq![Button::Win]);
    } else {
        assert(buttons@ =~= Seq::<Button>::empty());
    }
    Some(buttons)
}

/// What a click on the button named `button` asks for.
pub fn click_of(button: &str) -> (click: Click)
    ensures
        click == click_meaning(button@),
{
    let text = chars_of(button);
    assert(text@.subrange(0, text.len() as int) =~= button@);
    match read_decimal(&text, 0, text.len()) {
        Some(place) => {
            if place <= usize::MAX as u64 {
                return Click::Stake(place as usize);
            }
        },
        None => {},
    }
    if same(button, CANCEL) {
        Click::Cancel
    } else if same(button, RESET) {
        Click::Reset
    } else if same(button, LOCK) {
        Click::Lock
    } else if same(button, ABORT) {
        Click::Abort
    } else if same(button, WIN) {
        Click::Win
    } else {
        Click::Other
    }
}

/// Who may ask for what `click` asks for.
pub fn right_for(click: Click) -> (right: Right)
    ensures
        right == needed_right(click),
{
    match click {
        Click::Stake(_) => Right::Anyone,
        Click::Other => Right::Anyone,
        Click::Cancel => Right::Admin,
        Click::Reset => Right::Admin,
        Click::Lock => Right::Author,
        Click::Abort => Right::Author,
        Click::Win => Right::Author,
    }
}

} // verus!
