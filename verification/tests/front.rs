use betting::bets::{AccountStatus, BetStatus, OptionStatus};
use betting::config::{Config, PartialConfig};
use betting::front::{
    bet_stub,
    front_failure,
    option_stub,
    options_figures,
    Front,
    FrontError,
    OptionFigures,
};
use betting::handler::leaderboard;
use betting::model::StoreError;

#[test]
fn a_stub_has_its_options_and_no_wagers() {
    let stub = bet_stub(&vec!["yes".to_string(), "no".to_string()]);
    assert_eq!(stub.bet, "");
    assert_eq!(stub.desc, "");
    assert_eq!(stub.options.len(), 2);
    assert_eq!(stub.options[0].option, "");
    assert_eq!(stub.options[0].desc, "yes");
    assert_eq!(stub.options[1].desc, "no");
    assert!(stub.options[0].wagers.is_empty());
    assert!(stub.options[1].wagers.is_empty());
    assert_eq!(bet_stub(&vec![]).options.len(), 0);
    assert_eq!(option_stub(&"maybe".to_string()).desc, "maybe");
}

#[test]
fn the_settings_default_to_a_hundred_coins_and_five_of_income() {
    let settings = Config::from(PartialConfig::default());
    assert_eq!(settings.currency, "💵");
    assert_eq!(settings.starting_coins, 100);
    assert_eq!(settings.income, 5);
    let settings = Config::from(PartialConfig { currency: "$".to_string(), starting_coins: 7, income: 0 });
    assert_eq!((settings.currency.as_str(), settings.starting_coins, settings.income), ("$", 7, 0));
}

fn option_with(stakes: &[u32]) -> OptionStatus {
    OptionStatus {
        option: String::new(),
        desc: String::new(),
        wagers: stakes.iter().enumerate().map(|(i, s)| (format!("u{}", i), *s)).collect(),
    }
}

#[test]
fn the_percents_of_the_options_are_a_hundred() {
    let bet = BetStatus {
        bet: String::new(),
        desc: String::new(),
        options: vec![option_with(&[5]), option_with(&[3, 4]), option_with(&[])],
    };
    assert_eq!(
        options_figures(&bet),
        Some(vec![
            OptionFigures { percent: 42, sum: 5, people: 1 },
            OptionFigures { percent: 58, sum: 7, people: 2 },
            OptionFigures { percent: 0, sum: 0, people: 0 },
        ])
    );
    let stub = bet_stub(&vec!["yes".to_string(), "no".to_string()]);
    assert_eq!(
        options_figures(&stub),
        Some(vec![OptionFigures { percent: 0, sum: 0, people: 0 }; 2])
    );
    let huge = BetStatus {
        bet: String::new(),
        desc: String::new(),
        options: vec![option_with(&[1]), option_with(&[u32::MAX, 1])],
    };
    assert_eq!(options_figures(&huge), None);
}

#[test]
fn the_leaderboard_ranks_by_worth_then_by_balance() {
    let account = |user: &str, balance: u32, in_bet: u32| AccountStatus { user: user.to_string(), balance, in_bet };
    let accounts = vec![
        account("a", 5, 0),
        account("b", 1, 9),
        account("c", 10, 0),
        account("d", 0, 0),
        account("e", 10, 0),
        account("f", u32::MAX, u32::MAX),
    ];
    // f is worth the most; b, c and e are worth ten, of which c and e hold more, and e is the later
    assert_eq!(leaderboard(&accounts), vec![5, 4, 2, 1, 0, 3]);
    let mut expected = accounts.iter().enumerate().collect::<Vec<_>>();
    expected.sort_by_key(|(_, a)| (a.balance as u64 + a.in_bet as u64, a.balance));
    expected.reverse();
    assert_eq!(leaderboard(&accounts), expected.iter().map(|(i, _)| *i).collect::<Vec<_>>());
    let many: Vec<AccountStatus> = (0..25).map(|i| account("u", i, 0)).collect();
    assert_eq!(leaderboard(&many), vec![24, 23, 22, 21, 20, 19, 18, 17, 16, 15]);
    assert_eq!(leaderboard(&vec![]), Vec::<usize>::new());
}

#[test]
fn a_user_has_one_thread_in_a_server() {
    let mut front = Front::new("front.db").unwrap();
    assert_eq!(front.db_path(), "front.db");
    assert!(matches!(front.get("S", "A"), Err(FrontError::NotFound)));
    front.set("S", "A", "1").unwrap();
    front.set("S", "B", "2").unwrap();
    front.set("T", "A", "3").unwrap();
    assert_eq!(front.get("S", "A").unwrap(), "1");
    front.set("S", "A", "4").unwrap();
    assert_eq!(front.get("S", "A").unwrap(), "4");
    assert_eq!(front.get("T", "A").unwrap(), "3");
    assert_eq!(front.get_all("S").unwrap(), vec!["4", "2"]);
    assert_eq!(front.get_all("T").unwrap(), vec!["3"]);
    assert_eq!(front.get_all("U").unwrap(), Vec::<String>::new());
    assert_eq!(front.thread_rows().len(), 3);
}

#[test]
fn store_failures_reach_the_front_in_words() {
    assert!(matches!(front_failure(StoreError::SqliteFailure(1555), "w".to_string()), FrontError::AlreadyExists));
    assert!(matches!(front_failure(StoreError::QueryReturnedNoRows, "w".to_string()), FrontError::NotFound));
    match front_failure(StoreError::SqliteFailure(5), "busy".to_string()) {
        FrontError::InternalError(words) => assert_eq!(words, "busy"),
        _ => panic!("the failure was not kept in words"),
    }
    match front_failure(StoreError::Other, "other".to_string()) {
        FrontError::InternalError(words) => assert_eq!(words, "other"),
        _ => panic!("the failure was not kept in words"),
    }
}
