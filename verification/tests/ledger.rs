use betting::amount::Fraction;
use betting::bets::{AccountRow, BetError, BetRow, Bets, OptionRow, Tables, TombstoneRow, WagerRow};
use betting::model::StoreError;

fn names(list: &[&str]) -> Vec<String> {
    list.iter().map(|s| s.to_string()).collect()
}

fn percent(p: u32) -> Fraction {
    Fraction::percent(p).unwrap()
}

/// Three accounts of ten each and one bet "rain?" with the options X and Y.
fn rain() -> Bets {
    let mut bets = Bets::new("bets.db").unwrap();
    bets.create_account("S", "A", 10).unwrap();
    bets.create_account("S", "B", 10).unwrap();
    bets.create_account("S", "C", 10).unwrap();
    bets.create_bet("S", "rain", "rain?", &names(&["X", "Y"]), &names(&["yes", "no"])).unwrap();
    bets
}

#[test]
fn create_db() {
    match Bets::new("bets.db") {
        Ok(mut bets) => {
            if let Err(why) = bets.create_account("server", "Teo", 10) {
                println!("1 {:?}", why);
            }
            if let Err(why) = bets.create_account("server", "Manu", 10) {
                println!("2 {:?}", why);
            }
            if let Err(why) = bets.create_account("server", "Roux", 10) {
                println!("3 {:?}", why);
            }
            if let Err(why) = bets.create_bet(
                "server",
                "bet1",
                "Will roux go to sleep soon ?",
                &names(&["opt1", "opt2"]),
                &names(&["oui", "non"]),
            ) {
                println!("4 {:?}", why);
            }
            if let Err(why) = bets.bet_on("server", "opt1", "Roux", percent((0.5f32 * 100.0) as u32)) {
                println!("5 {:?}", why);
            }
            if let Err(why) = bets.bet_on("server", "opt2", "Teo", percent((0.3f32 * 100.0) as u32)) {
                println!("6 {:?}", why);
            }
            if let Err(why) = bets.bet_on("server", "opt2", "Manu", percent((0.4f32 * 100.0) as u32)) {
                println!("7 {:?}", why);
            }
            if let Err(why) = bets.close_bet("server", "opt1") {
                println!("8 {:?}", why);
            }
            assert_eq!(bets.balance("server", "Roux").unwrap(), 17);
            assert_eq!(bets.balance("server", "Teo").unwrap(), 7);
            assert_eq!(bets.balance("server", "Manu").unwrap(), 6);
        }
        Err(why) => println!("{:?}", why),
    };
}

#[test]
fn a_settled_bet_pays_the_pool_to_the_sole_winner() {
    let mut bets = rain();
    let (a, _) = bets.bet_on("S", "X", "A", percent(50)).unwrap();
    assert_eq!((a.diff, a.balance), (-5, 5));
    let (b, _) = bets.bet_on("S", "Y", "B", percent(30)).unwrap();
    assert_eq!((b.diff, b.balance), (-3, 7));
    let (c, status) = bets.bet_on("S", "Y", "C", percent(40)).unwrap();
    assert_eq!((c.diff, c.balance), (-4, 6));
    assert_eq!(status.bet, "rain");
    assert_eq!(status.desc, "rain?");
    assert_eq!(status.options.len(), 2);
    assert_eq!(status.options[0].option, "X");
    assert_eq!(status.options[0].desc, "yes");
    assert_eq!(status.options[0].wagers, vec![("A".to_string(), 5)]);
    assert_eq!(status.options[1].wagers, vec![("B".to_string(), 3), ("C".to_string(), 4)]);

    let updates = bets.close_bet("S", "X").unwrap();
    assert_eq!(updates.len(), 1);
    assert_eq!(updates[0].server, "S");
    assert_eq!(updates[0].user, "A");
    assert_eq!(updates[0].diff, 12);
    assert_eq!(updates[0].balance, 17);
    assert_eq!(bets.balance("S", "A").unwrap(), 17);
    assert_eq!(bets.balance("S", "B").unwrap(), 7);
    assert_eq!(bets.balance("S", "C").unwrap(), 6);
    let total: u32 = ["A", "B", "C"].iter().map(|u| bets.balance("S", u).unwrap()).sum();
    assert_eq!(total, 30);
}

#[test]
fn the_deltas_of_a_round_sum_to_zero() {
    let mut bets = rain();
    let mut deltas: i64 = 0;
    deltas += bets.bet_on("S", "X", "A", percent(70)).unwrap().0.diff;
    deltas += bets.bet_on("S", "X", "B", percent(20)).unwrap().0.diff;
    deltas += bets.bet_on("S", "Y", "C", percent(100)).unwrap().0.diff;
    assert_eq!(deltas, -(7 + 2 + 10));
    let updates = bets.close_bet("S", "X").unwrap();
    deltas += updates.iter().map(|u| u.diff).sum::<i64>();
    assert_eq!(deltas, 0);
    // 19 shared 7 : 2 is 14.77.. and 4.22..; the larger remainder takes the unit that is left
    assert_eq!(updates[0].diff, 15);
    assert_eq!(updates[1].diff, 4);
    assert_eq!(bets.balance("S", "A").unwrap(), 18);
    assert_eq!(bets.balance("S", "B").unwrap(), 12);
    assert_eq!(bets.balance("S", "C").unwrap(), 0);
}

#[test]
fn calling_a_bet_off_refunds_every_wager() {
    let mut bets = rain();
    bets.bet_on("S", "X", "A", percent(50)).unwrap();
    bets.bet_on("S", "Y", "B", percent(30)).unwrap();
    let updates = bets.abort_bet("S", "rain").unwrap();
    assert_eq!(updates.len(), 2);
    assert_eq!((updates[0].user.as_str(), updates[0].diff, updates[0].balance), ("A", 5, 10));
    assert_eq!((updates[1].user.as_str(), updates[1].diff, updates[1].balance), ("B", 3, 10));
    assert_eq!(bets.balance("S", "A").unwrap(), 10);
    assert_eq!(bets.balance("S", "B").unwrap(), 10);
    assert_eq!(bets.balance("S", "C").unwrap(), 10);
}

#[test]
fn stakes_on_one_option_add_up_in_one_wager() {
    let mut bets = rain();
    bets.bet_on("S", "X", "A", percent(50)).unwrap();
    let (update, status) = bets.bet_on("S", "X", "A", percent(40)).unwrap();
    assert_eq!((update.diff, update.balance), (-2, 3));
    assert_eq!(status.options[0].wagers, vec![("A".to_string(), 7)]);
}

#[test]
fn a_second_option_of_the_same_bet_is_refused() {
    let mut bets = rain();
    bets.bet_on("S", "X", "A", percent(50)).unwrap();
    match bets.bet_on("S", "Y", "A", percent(50)) {
        Err(BetError::MultiOpt(held)) => assert_eq!(held, vec!["X".to_string()]),
        _ => panic!("the stake was not refused for being on a second option"),
    }
    assert_eq!(bets.balance("S", "A").unwrap(), 5);
    let accounts = bets.accounts("S").unwrap();
    assert_eq!(accounts[0].in_bet, 5);
}

#[test]
fn a_torn_down_bet_refuses_everything() {
    let mut bets = rain();
    bets.bet_on("S", "X", "A", percent(50)).unwrap();
    bets.close_bet("S", "X").unwrap();
    assert!(matches!(bets.bet_on("S", "X", "B", percent(50)), Err(BetError::NotFound)));
    assert!(matches!(bets.bet_on("S", "Y", "B", percent(50)), Err(BetError::NotFound)));
    assert!(matches!(bets.lock_bet("S", "rain"), Err(BetError::NotFound)));
    assert!(matches!(bets.close_bet("S", "Y"), Err(BetError::NotFound)));
    assert!(matches!(bets.abort_bet("S", "rain"), Err(BetError::NotFound)));
    assert_eq!(bets.balance("S", "B").unwrap(), 10);

    let mut bets = rain();
    bets.abort_bet("S", "rain").unwrap();
    assert!(matches!(bets.bet_on("S", "X", "B", percent(50)), Err(BetError::NotFound)));
    assert!(matches!(bets.lock_bet("S", "rain"), Err(BetError::NotFound)));
    assert!(matches!(bets.close_bet("S", "X"), Err(BetError::NotFound)));
    assert!(matches!(bets.abort_bet("S", "rain"), Err(BetError::NotFound)));
}

#[test]
fn a_locked_bet_takes_no_wager_but_can_be_settled() {
    let mut bets = rain();
    bets.bet_on("S", "X", "A", percent(100)).unwrap();
    bets.lock_bet("S", "rain").unwrap();
    assert!(matches!(bets.bet_on("S", "Y", "B", percent(50)), Err(BetError::BetLocked)));
    assert_eq!(bets.balance("S", "B").unwrap(), 10);
    let updates = bets.close_bet("S", "X").unwrap();
    assert_eq!(updates[0].balance, 10);
}

#[test]
fn a_stake_that_comes_to_nothing_is_refused() {
    let mut bets = rain();
    assert!(matches!(bets.bet_on("S", "X", "A", percent(0)), Err(BetError::NotEnoughMoney)));
    bets.bet_on("S", "X", "A", Fraction::all()).unwrap();
    assert_eq!(bets.balance("S", "A").unwrap(), 0);
    assert!(matches!(bets.bet_on("S", "X", "A", percent(50)), Err(BetError::NotEnoughMoney)));
}

#[test]
fn a_share_is_rounded_up_to_a_whole() {
    assert_eq!(percent(30).of(10), 3);
    assert_eq!(percent(40).of(10), 4);
    assert_eq!(percent(50).of(10), 5);
    assert_eq!(percent(1).of(10), 1);
    assert_eq!(percent(33).of(10), 4);
    assert_eq!(percent(100).of(4_294_967_295), 4_294_967_295);
    assert_eq!(Fraction::new(1, 3).unwrap().of(10), 4);
    assert_eq!(Fraction::new(0, 3).unwrap().of(10), 0);
    assert!(Fraction::new(1, 0).is_none());
    assert!(Fraction::new(4, 3).is_none());
    assert!(Fraction::percent(101).is_none());
}

#[test]
fn what_is_absent_is_not_found() {
    let mut bets = rain();
    assert!(matches!(bets.balance("S", "nobody"), Err(BetError::NotFound)));
    assert!(matches!(bets.balance("T", "A"), Err(BetError::NotFound)));
    assert!(matches!(bets.bet_on("S", "Z", "A", percent(50)), Err(BetError::NotFound)));
    assert!(matches!(bets.bet_on("S", "X", "nobody", percent(50)), Err(BetError::NotFound)));
    assert!(matches!(bets.lock_bet("S", "snow"), Err(BetError::NotFound)));
    assert!(matches!(bets.abort_bet("S", "snow"), Err(BetError::NotFound)));
    assert!(matches!(bets.close_bet("S", "Z"), Err(BetError::NotFound)));
    assert!(matches!(bets.bet_of_option("S", "Z"), Err(BetError::NotFound)));
    assert_eq!(bets.bet_of_option("S", "Y").unwrap(), "rain");
    assert_eq!(bets.options_of_bet("S", "rain").unwrap(), names(&["X", "Y"]));
    assert_eq!(bets.options_of_bet("S", "snow").unwrap(), Vec::<String>::new());
}

#[test]
fn what_exists_cannot_be_created_again() {
    let mut bets = rain();
    assert!(matches!(bets.create_account("S", "A", 5), Err(BetError::AlreadyExists)));
    assert_eq!(bets.balance("S", "A").unwrap(), 10);
    bets.create_account("T", "A", 5).unwrap();
    assert_eq!(bets.balance("T", "A").unwrap(), 5);
    let two = names(&["P", "Q"]);
    assert!(matches!(bets.create_bet("S", "rain", "again?", &two, &two), Err(BetError::AlreadyExists)));
    assert!(matches!(
        bets.create_bet("S", "snow", "snow?", &names(&["P", "X"]), &two),
        Err(BetError::AlreadyExists)
    ));
    assert!(matches!(
        bets.create_bet("S", "snow", "snow?", &names(&["P", "P"]), &two),
        Err(BetError::AlreadyExists)
    ));
    assert_eq!(bets.options_of_bet("S", "snow").unwrap(), Vec::<String>::new());
    assert!(matches!(bets.bet_of_option("S", "P"), Err(BetError::NotFound)));
    bets.create_bet("S", "snow", "snow?", &two, &two).unwrap();
    bets.create_bet("T", "rain", "rain?", &names(&["X", "Y"]), &two).unwrap();
    assert_eq!(bets.options_of_bet("S", "snow").unwrap(), two);
}

#[test]
fn income_reaches_every_account_of_every_server() {
    let mut bets = rain();
    bets.create_account("T", "A", 1).unwrap();
    let updates = bets.income(5).unwrap();
    assert_eq!(updates.len(), 4);
    assert_eq!(
        updates.iter().map(|u| (u.server.as_str(), u.user.as_str(), u.diff, u.balance)).collect::<Vec<_>>(),
        vec![("S", "A", 5, 15), ("S", "B", 5, 15), ("S", "C", 5, 15), ("T", "A", 5, 6)]
    );
    assert_eq!(bets.balance("T", "A").unwrap(), 6);
}

#[test]
fn an_income_that_does_not_fit_changes_nothing() {
    let mut bets = rain();
    bets.create_account("S", "rich", u32::MAX - 2).unwrap();
    assert!(matches!(
        bets.income(3),
        Err(BetError::InternalError(StoreError::IntegralValueOutOfRange))
    ));
    assert_eq!(bets.balance("S", "A").unwrap(), 10);
    assert_eq!(bets.balance("S", "rich").unwrap(), u32::MAX - 2);
    bets.income(2).unwrap();
    assert_eq!(bets.balance("S", "rich").unwrap(), u32::MAX);
}

#[test]
fn winnings_that_do_not_fit_change_nothing() {
    let mut bets = Bets::new("bets.db").unwrap();
    bets.create_account("S", "A", u32::MAX).unwrap();
    bets.create_account("S", "B", u32::MAX).unwrap();
    bets.create_bet("S", "rain", "rain?", &names(&["X", "Y"]), &names(&["yes", "no"])).unwrap();
    bets.bet_on("S", "X", "A", percent(1)).unwrap();
    bets.bet_on("S", "Y", "B", percent(100)).unwrap();
    assert!(matches!(
        bets.close_bet("S", "X"),
        Err(BetError::InternalError(StoreError::IntegralValueOutOfRange))
    ));
    assert_eq!(bets.balance("S", "A").unwrap(), u32::MAX - 42_949_673);
    assert_eq!(bets.balance("S", "B").unwrap(), 0);
    // the bet is still there and can be called off
    let updates = bets.abort_bet("S", "rain").unwrap();
    assert_eq!(updates.len(), 2);
    assert_eq!(bets.balance("S", "A").unwrap(), u32::MAX);
    assert_eq!(bets.balance("S", "B").unwrap(), u32::MAX);
}

#[test]
fn a_reset_removes_the_open_bets_of_one_server() {
    let mut bets = rain();
    bets.create_bet("S", "snow", "snow?", &names(&["P", "Q"]), &names(&["yes", "no"])).unwrap();
    bets.create_bet("S", "hail", "hail?", &names(&["H", "I"]), &names(&["yes", "no"])).unwrap();
    bets.create_account("T", "A", 50).unwrap();
    bets.create_bet("T", "rain", "rain?", &names(&["X", "Y"]), &names(&["yes", "no"])).unwrap();
    bets.bet_on("S", "X", "A", percent(50)).unwrap();
    bets.bet_on("S", "P", "A", percent(20)).unwrap();
    bets.bet_on("S", "H", "B", percent(20)).unwrap();
    bets.bet_on("T", "X", "A", percent(50)).unwrap();
    bets.lock_bet("S", "snow").unwrap();
    bets.abort_bet("S", "hail").unwrap();

    bets.reset("S", 100).unwrap();

    assert_eq!(bets.balance("S", "A").unwrap(), 100);
    assert_eq!(bets.balance("S", "B").unwrap(), 100);
    assert_eq!(bets.balance("T", "A").unwrap(), 25);
    // the open bets are gone, torn down or not
    assert_eq!(bets.options_of_bet("S", "rain").unwrap(), Vec::<String>::new());
    assert_eq!(bets.options_of_bet("S", "hail").unwrap(), Vec::<String>::new());
    assert!(matches!(bets.bet_on("S", "X", "A", percent(50)), Err(BetError::NotFound)));
    assert_eq!(bets.tombstone_rows().len(), 0);
    // the locked bet is still there with its wager
    assert_eq!(bets.options_of_bet("S", "snow").unwrap(), names(&["P", "Q"]));
    assert_eq!(bets.accounts("S").unwrap()[0].in_bet, 1);
    assert!(matches!(bets.bet_on("S", "Q", "B", percent(50)), Err(BetError::BetLocked)));
    // so is the other server
    assert_eq!(bets.options_of_bet("T", "rain").unwrap(), names(&["X", "Y"]));
    assert_eq!(bets.accounts("T").unwrap()[0].in_bet, 25);
    // the names of the bets that are gone are free again
    bets.create_bet("S", "rain", "rain?", &names(&["X", "Y"]), &names(&["yes", "no"])).unwrap();
    assert!(matches!(
        bets.create_bet("S", "snow", "snow?", &names(&["V", "W"]), &names(&["yes", "no"])),
        Err(BetError::AlreadyExists)
    ));
    assert_eq!(bets.close_bet("S", "P").unwrap()[0].balance, 101);
}

#[test]
fn accounts_tell_what_is_held_and_what_is_at_stake() {
    let mut bets = rain();
    bets.create_bet("S", "snow", "snow?", &names(&["P", "Q"]), &names(&["yes", "no"])).unwrap();
    bets.bet_on("S", "X", "A", percent(50)).unwrap();
    bets.bet_on("S", "P", "A", percent(20)).unwrap();
    bets.bet_on("S", "Y", "B", percent(10)).unwrap();
    let list = bets.accounts("S").unwrap();
    assert_eq!(
        list.iter().map(|a| (a.user.as_str(), a.balance, a.in_bet)).collect::<Vec<_>>(),
        vec![("A", 4, 6), ("B", 9, 1), ("C", 10, 0)]
    );
    bets.abort_bet("S", "rain").unwrap();
    let list = bets.accounts("S").unwrap();
    assert_eq!(
        list.iter().map(|a| (a.user.as_str(), a.balance, a.in_bet)).collect::<Vec<_>>(),
        vec![("A", 9, 1), ("B", 10, 0), ("C", 10, 0)]
    );
    assert_eq!(bets.accounts("nowhere").unwrap().len(), 0);
}

#[test]
fn a_bet_without_winners_pays_nobody() {
    let mut bets = rain();
    bets.bet_on("S", "Y", "B", percent(30)).unwrap();
    let updates = bets.close_bet("S", "X").unwrap();
    assert_eq!(updates.len(), 0);
    assert_eq!(bets.balance("S", "B").unwrap(), 7);
}

#[test]
fn store_failures_are_told_apart() {
    assert!(matches!(BetError::from(StoreError::SqliteFailure(1555)), BetError::AlreadyExists));
    assert!(matches!(
        BetError::from(StoreError::SqliteFailure(787)),
        BetError::InternalError(StoreError::SqliteFailure(787))
    ));
    assert!(matches!(BetError::from(StoreError::QueryReturnedNoRows), BetError::NotFound));
    assert!(matches!(
        BetError::from(StoreError::IntegralValueOutOfRange),
        BetError::InternalError(StoreError::IntegralValueOutOfRange)
    ));
    assert!(matches!(BetError::from(StoreError::Other), BetError::InternalError(StoreError::Other)));
}

fn tables_of(bets: &Bets) -> Tables {
    Tables {
        accounts: bets.account_rows().clone(),
        bets: bets.bet_rows().clone(),
        options: bets.option_rows().clone(),
        wagers: bets.wager_rows().clone(),
        tombstones: bets.tombstone_rows().clone(),
    }
}

#[test]
fn a_ledger_is_restored_from_its_rows() {
    let mut bets = rain();
    bets.create_bet("S", "snow", "snow?", &names(&["P", "Q"]), &names(&["yes", "no"])).unwrap();
    bets.bet_on("S", "X", "A", percent(50)).unwrap();
    bets.bet_on("S", "P", "A", percent(20)).unwrap();
    bets.lock_bet("S", "snow").unwrap();
    bets.abort_bet("S", "rain").unwrap();
    let mut again = Bets::restore("elsewhere.db", tables_of(&bets)).unwrap();
    assert_eq!(again.db_path(), "elsewhere.db");
    assert_eq!(again.balance("S", "A").unwrap(), 9);
    assert_eq!(again.accounts("S").unwrap()[0].in_bet, 1);
    assert!(matches!(again.bet_on("S", "X", "B", percent(50)), Err(BetError::NotFound)));
    assert!(matches!(again.bet_on("S", "Q", "B", percent(50)), Err(BetError::BetLocked)));
    assert_eq!(again.close_bet("S", "P").unwrap()[0].balance, 10);
}

#[test]
fn rows_that_break_a_constraint_are_not_restored() {
    let mut bets = rain();
    bets.bet_on("S", "X", "A", percent(50)).unwrap();
    let refused = |tables: Tables| {
        matches!(Bets::restore("bets.db", tables), Err(BetError::InternalError(StoreError::Other)))
    };
    assert!(Bets::restore("bets.db", tables_of(&bets)).is_ok());

    let mut t = tables_of(&bets);
    t.accounts.push(AccountRow { server: "S".into(), user: "A".into(), balance: 1 });
    assert!(refused(t));
    let mut t = tables_of(&bets);
    t.bets.push(BetRow { server: "S".into(), bet: "rain".into(), desc: "".into(), is_open: true });
    assert!(refused(t));
    let mut t = tables_of(&bets);
    t.options.push(OptionRow { server: "S".into(), option: "X".into(), bet: "rain".into(), desc: "".into() });
    assert!(refused(t));
    let mut t = tables_of(&bets);
    t.options.push(OptionRow { server: "S".into(), option: "Z".into(), bet: "snow".into(), desc: "".into() });
    assert!(refused(t));
    let mut t = tables_of(&bets);
    t.wagers.push(WagerRow { server: "S".into(), option: "X".into(), user: "A".into(), amount: 1 });
    assert!(refused(t));
    let mut t = tables_of(&bets);
    t.wagers.push(WagerRow { server: "S".into(), option: "Y".into(), user: "A".into(), amount: 1 });
    assert!(refused(t));
    let mut t = tables_of(&bets);
    t.wagers.push(WagerRow { server: "S".into(), option: "Y".into(), user: "B".into(), amount: 0 });
    assert!(refused(t));
    let mut t = tables_of(&bets);
    t.wagers.push(WagerRow { server: "S".into(), option: "Y".into(), user: "nobody".into(), amount: 1 });
    assert!(refused(t));
    let mut t = tables_of(&bets);
    t.wagers.push(WagerRow { server: "S".into(), option: "Z".into(), user: "B".into(), amount: 1 });
    assert!(refused(t));
    let mut t = tables_of(&bets);
    t.tombstones.push(TombstoneRow { server: "S".into(), bet: "snow".into() });
    assert!(refused(t));
    let mut t = tables_of(&bets);
    t.tombstones.push(TombstoneRow { server: "S".into(), bet: "rain".into() });
    t.tombstones.push(TombstoneRow { server: "S".into(), bet: "rain".into() });
    assert!(refused(t));
    let mut t = tables_of(&bets);
    t.wagers.push(WagerRow { server: "S".into(), option: "Y".into(), user: "B".into(), amount: 1 });
    t.tombstones.push(TombstoneRow { server: "S".into(), bet: "rain".into() });
    assert!(Bets::restore("bets.db", t).is_ok());
}

#[test]
fn removing_what_is_torn_down_changes_no_answer() {
    let mut bets = rain();
    bets.create_bet("S", "snow", "snow?", &names(&["P", "Q"]), &names(&["yes", "no"])).unwrap();
    bets.bet_on("S", "X", "A", percent(50)).unwrap();
    bets.bet_on("S", "Y", "B", percent(50)).unwrap();
    bets.bet_on("S", "P", "A", percent(20)).unwrap();
    bets.close_bet("S", "X").unwrap();
    let before: Vec<(String, u32, u32)> =
        bets.accounts("S").unwrap().into_iter().map(|a| (a.user, a.balance, a.in_bet)).collect();
    assert_eq!(before, vec![("A".to_string(), 14, 1), ("B".to_string(), 5, 0), ("C".to_string(), 10, 0)]);
    assert_eq!(bets.options_of_bet("S", "rain").unwrap(), names(&["X", "Y"]));
    assert_eq!((bets.bet_rows().len(), bets.option_rows().len(), bets.wager_rows().len()), (2, 4, 3));
    assert_eq!(bets.tombstone_rows().len(), 1);

    bets.purge();

    let after: Vec<(String, u32, u32)> =
        bets.accounts("S").unwrap().into_iter().map(|a| (a.user, a.balance, a.in_bet)).collect();
    assert_eq!(after, before);
    assert_eq!((bets.bet_rows().len(), bets.option_rows().len(), bets.wager_rows().len()), (1, 2, 1));
    assert_eq!(bets.tombstone_rows().len(), 0);
    assert_eq!(bets.options_of_bet("S", "rain").unwrap(), Vec::<String>::new());
    assert_eq!(bets.options_of_bet("S", "snow").unwrap(), names(&["P", "Q"]));
    assert!(matches!(bets.bet_on("S", "Y", "C", percent(50)), Err(BetError::NotFound)));
    assert!(matches!(bets.lock_bet("S", "rain"), Err(BetError::NotFound)));
    assert!(matches!(bets.close_bet("S", "X"), Err(BetError::NotFound)));
    assert!(matches!(bets.abort_bet("S", "rain"), Err(BetError::NotFound)));
    assert_eq!(bets.close_bet("S", "P").unwrap()[0].balance, 15);
    bets.purge();
    assert_eq!((bets.bet_rows().len(), bets.option_rows().len(), bets.wager_rows().len()), (0, 0, 0));
}
