use betting::betting_commands::{bet_of_words, bet_parse, check_outcomes, CommandError};
use betting::front_utils::shorten;
use betting::handler_utils::{
    bet_components, click_of, outcome_components, right_for, Button, Click, Right,
};
use betting::numbers::{chars_of, read_decimal, write_decimal};
use betting::serialize_utils::{BetAction, BetOutcome, ParseError};

fn outcome(bet_id: u64, outcome_id: usize) -> BetOutcome {
    BetOutcome { bet_id, outcome_id }
}

#[test]
fn numbers_are_written_in_decimal() {
    for (n, text) in [(0u64, "0"), (7, "7"), (10, "10"), (1555, "1555"), (u64::MAX, "18446744073709551615")] {
        let mut out = String::from("n=");
        write_decimal(&mut out, n);
        assert_eq!(out, format!("n={}", text));
    }
}

#[test]
fn numbers_are_read_as_the_language_reads_them() {
    for text in ["0", "7", "007", "+12", "18446744073709551615", "", "+", "-1", "1 ", " 1", "12a", "１", "18446744073709551616", "99999999999999999999999", "++1", "1+"] {
        let chars = chars_of(text);
        assert_eq!(read_decimal(&chars, 0, chars.len()), text.parse::<u64>().ok(), "{:?}", text);
    }
    let chars = chars_of("ab12cd");
    assert_eq!(read_decimal(&chars, 2, 4), Some(12));
    assert_eq!(read_decimal(&chars, 2, 5), None);
    assert_eq!(read_decimal(&chars, 3, 3), None);
}

#[test]
fn an_outcome_is_its_bet_a_dash_and_its_number() {
    assert_eq!(outcome(42, 3).to_string(), "42-3");
    assert_eq!(outcome(0, 0).to_string(), "0-0");
    assert_eq!(BetOutcome::try_from("42-3"), Ok(outcome(42, 3)));
    assert_eq!(BetOutcome::try_from("+42-+3"), Ok(outcome(42, 3)));
    assert_eq!(BetOutcome::try_from("423"), Err(ParseError::NotAnOutcome));
    assert_eq!(BetOutcome::try_from(""), Err(ParseError::NotAnOutcome));
    assert_eq!(BetOutcome::try_from("42-"), Err(ParseError::InvalidNumber));
    assert_eq!(BetOutcome::try_from("-3"), Err(ParseError::InvalidNumber));
    assert_eq!(BetOutcome::try_from("1-2-3"), Err(ParseError::InvalidNumber));
    assert_eq!(BetOutcome::try_from("a-3"), Err(ParseError::InvalidNumber));
    assert_eq!(BetOutcome::try_from("18446744073709551616-3"), Err(ParseError::InvalidNumber));
    for o in [outcome(0, 0), outcome(1, usize::MAX), outcome(u64::MAX, 7), outcome(1234567890, 10)] {
        assert_eq!(BetOutcome::try_from(o.to_string().as_str()), Ok(o));
    }
}

#[test]
fn an_action_is_its_name_a_dash_and_its_data() {
    assert_eq!(BetAction::Lock.to_string(), "lock-");
    assert_eq!(BetAction::Abort.to_string(), "abort-");
    assert_eq!(BetAction::BetOrder.to_string(), "bet_order-");
    assert_eq!(BetAction::BetClick(outcome(42, 3)).to_string(), "bet_click-42-3");
    assert_eq!(BetAction::Resolve(outcome(42, 3)).to_string(), "resolve-42-3");
    for a in [
        BetAction::Lock,
        BetAction::Abort,
        BetAction::BetOrder,
        BetAction::BetClick(outcome(9, 1)),
        BetAction::Resolve(outcome(u64::MAX, 0)),
    ] {
        assert_eq!(BetAction::try_from(a.to_string()), Ok(a));
    }
    assert_eq!(BetAction::try_from("lock-whatever".to_string()), Ok(BetAction::Lock));
    assert_eq!(BetAction::try_from("lock".to_string()), Err(ParseError::NotAnAction));
    assert_eq!(BetAction::try_from("".to_string()), Err(ParseError::NotAnAction));
    assert_eq!(BetAction::try_from("-".to_string()), Err(ParseError::UnknownAction));
    assert_eq!(BetAction::try_from("unlock-".to_string()), Err(ParseError::UnknownAction));
    assert_eq!(BetAction::try_from("Lock-".to_string()), Err(ParseError::UnknownAction));
    assert_eq!(BetAction::try_from("resolve-".to_string()), Err(ParseError::NotAnOutcome));
    assert_eq!(BetAction::try_from("resolve-7".to_string()), Err(ParseError::NotAnOutcome));
    assert_eq!(BetAction::try_from("bet_click-7-x".to_string()), Err(ParseError::InvalidNumber));
}

#[test]
fn a_text_is_cut_to_its_first_line_and_to_length() {
    assert_eq!(shorten("short", 20), "short");
    assert_eq!(shorten("first\nsecond", 20), "first");
    assert_eq!(shorten("\nsecond", 20), "");
    assert_eq!(shorten("", 0), "");
    assert_eq!(shorten("exactly twenty bytes", 20), "exactly twenty bytes");
    assert_eq!(shorten("this is more than twenty bytes", 20), "this is more than t…");
    assert_eq!(shorten("this is more than twenty bytes\nand a second line", 5), "this…");
    assert_eq!(shorten("ab", 1), "…");
    assert_eq!(shorten("été comme hiver", 7), "été …");
}

#[test]
fn outcomes_are_the_words_of_a_shell() {
    let (desc, words) =
        bet_parse(Some("rain?".to_string()), Some("yes \"not at all\" may\\ be".to_string())).unwrap();
    assert_eq!(desc, "rain?");
    assert_eq!(words, vec!["yes", "not at all", "may be"]);
    let (desc, words) = bet_parse(None, None).unwrap();
    assert_eq!(desc, "");
    assert_eq!(words, Vec::<String>::new());
    assert_eq!(
        bet_parse(Some("rain?".to_string()), Some("yes \"no".to_string())),
        Err(CommandError::MismatchedQuotes)
    );
    assert_eq!(bet_of_words("d".to_string(), None), Err(CommandError::MismatchedQuotes));
    assert_eq!(
        bet_of_words("d".to_string(), Some(vec!["a".to_string()])),
        Ok(("d".to_string(), vec!["a".to_string()]))
    );
}

#[test]
fn a_bet_has_two_outcomes_or_more() {
    let words = |n: usize| (0..n).map(|i| i.to_string()).collect::<Vec<_>>();
    assert_eq!(check_outcomes(&words(0)), Err(CommandError::TooFewOutcomes));
    assert_eq!(check_outcomes(&words(1)), Err(CommandError::TooFewOutcomes));
    assert_eq!(check_outcomes(&words(2)), Ok(()));
    assert_eq!(check_outcomes(&words(5)), Ok(()));
}

#[test]
fn the_buttons_follow_the_state_of_the_bet() {
    assert_eq!(bet_components("open"), Some(vec![Button::Lock, Button::Abort]));
    assert_eq!(bet_components("lock"), Some(vec![Button::Abort]));
    assert_eq!(bet_components("win"), None);
    assert_eq!(bet_components("abort"), None);
    assert_eq!(bet_components("anything"), Some(vec![Button::Lock, Button::Abort]));
    assert_eq!(outcome_components("open"), Some(vec![Button::Bet]));
    assert_eq!(outcome_components("lock"), Some(vec![Button::Win]));
    assert_eq!(outcome_components("win"), None);
    assert_eq!(outcome_components("abort"), None);
    assert_eq!(outcome_components("anything"), Some(vec![]));
}

#[test]
fn a_click_is_told_by_the_name_of_its_button() {
    assert_eq!(click_of("0"), Click::Stake(0));
    assert_eq!(click_of("2"), Click::Stake(2));
    assert_eq!(click_of("+2"), Click::Stake(2));
    assert_eq!(click_of("cancel"), Click::Cancel);
    assert_eq!(click_of("reset"), Click::Reset);
    assert_eq!(click_of("lock"), Click::Lock);
    assert_eq!(click_of("abort"), Click::Abort);
    assert_eq!(click_of("win"), Click::Win);
    assert_eq!(click_of("bet"), Click::Other);
    assert_eq!(click_of(""), Click::Other);
    assert_eq!(click_of("-1"), Click::Other);
    assert_eq!(right_for(Click::Stake(1)), Right::Anyone);
    assert_eq!(right_for(Click::Other), Right::Anyone);
    assert_eq!(right_for(Click::Cancel), Right::Admin);
    assert_eq!(right_for(Click::Reset), Right::Admin);
    assert_eq!(right_for(Click::Lock), Right::Author);
    assert_eq!(right_for(Click::Abort), Right::Author);
    assert_eq!(right_for(Click::Win), Right::Author);
}
