use ayabot::duel::{Duel, DuelRecord, OneDuel, Shoot};

fn opened_duel() -> Duel {
    let mut d = Duel::new();
    d.start_duel(10, 20, String::from("Alice"), String::from("Bob"), 100, 5);
    d
}

fn record_of(d: &Duel, id: u64) -> DuelRecord {
    let snap = d.records_snapshot();
    for (k, r) in snap.iter() {
        if *k == id {
            return *r;
        }
    }
    panic!("no record for {}", id);
}

#[test]
fn open_creates_records_for_both_participants() {
    let d = opened_duel();
    assert_eq!(record_of(&d, 10), DuelRecord { win: 0, lose: 0 });
    assert_eq!(record_of(&d, 20), DuelRecord { win: 0, lose: 0 });
    assert!(d.can_act(100, 10));
    assert!(d.can_act(100, 20));
    assert!(!d.can_act(100, 30));
    assert!(!d.can_act(999, 10));
}

#[test]
fn first_throw_fills_only_that_slot() {
    let mut d = opened_duel();
    let v = d.shoot(100, 10, 5);
    assert_eq!(v, Shoot::Pending);
    assert!(!d.can_act(100, 10));
    assert!(d.can_act(100, 20));
}

#[test]
fn second_throw_by_same_player_is_a_no_op() {
    let mut d = opened_duel();
    assert_eq!(d.shoot(100, 10, 5), Shoot::Pending);
    assert_eq!(d.shoot(100, 10, 3), Shoot::Pending);
    // The slot kept the first value: Bob's lower throw now loses against 5.
    let v = d.shoot(100, 20, 4);
    match v {
        Shoot::Loser { loser, winner, .. } => {
            assert_eq!(loser, 20);
            assert_eq!(winner, 10);
        }
        other => panic!("expected a decisive verdict, got {:?}", other),
    }
}

#[test]
fn lower_throw_loses_and_records_are_credited_once() {
    let mut d = opened_duel();
    assert_eq!(d.shoot(100, 10, 5), Shoot::Pending);
    let v = d.shoot(100, 20, 2);
    assert_eq!(
        v,
        Shoot::Loser {
            loser: 20,
            loser_name: String::from("Bob"),
            winner: 10,
            winner_name: String::from("Alice"),
            penalty: 5,
        }
    );
    assert_eq!(record_of(&d, 10), DuelRecord { win: 1, lose: 0 });
    assert_eq!(record_of(&d, 20), DuelRecord { win: 0, lose: 1 });
    // The duel has left the live set.
    assert!(!d.can_act(100, 10));
    assert!(!d.can_act(100, 20));
    assert_eq!(d.shoot(100, 10, 6), Shoot::Pending);
}

#[test]
fn equal_throws_draw_and_credit_neither() {
    let mut d = opened_duel();
    assert_eq!(d.shoot(100, 10, 4), Shoot::Pending);
    assert_eq!(d.shoot(100, 20, 4), Shoot::Draw);
    assert_eq!(record_of(&d, 10), DuelRecord { win: 0, lose: 0 });
    assert_eq!(record_of(&d, 20), DuelRecord { win: 0, lose: 0 });
    assert!(!d.can_act(100, 10));
    assert!(!d.can_act(100, 20));
}

#[test]
fn throw_order_does_not_change_the_outcome() {
    let mut d1 = opened_duel();
    assert_eq!(d1.shoot(100, 10, 6), Shoot::Pending);
    let v1 = d1.shoot(100, 20, 2);

    let mut d2 = opened_duel();
    assert_eq!(d2.shoot(100, 20, 2), Shoot::Pending);
    let v2 = d2.shoot(100, 10, 6);

    assert_eq!(v1, v2);
    assert_eq!(d1.records_snapshot(), d2.records_snapshot());
    assert!(!d1.can_act(100, 10) && !d2.can_act(100, 10));
}

#[test]
fn unknown_duel_and_stranger_are_no_ops() {
    let mut d = opened_duel();
    assert_eq!(d.shoot(999, 10, 6), Shoot::Pending);
    assert_eq!(d.shoot(100, 30, 6), Shoot::Pending);
    assert!(d.can_act(100, 10));
    assert!(d.can_act(100, 20));
}

#[test]
fn reopening_a_key_overwrites_the_duel() {
    let mut d = opened_duel();
    assert_eq!(d.shoot(100, 10, 6), Shoot::Pending);
    d.start_duel(10, 20, String::from("Alice"), String::from("Bob"), 100, 7);
    // The old throw is gone; both participants may act again.
    assert!(d.can_act(100, 10));
    assert!(d.can_act(100, 20));
    assert_eq!(d.open_duels.len(), 1);
}

#[test]
fn opponent_names_are_snapshots_from_open_time() {
    let d = opened_duel();
    assert_eq!(d.lookup_opponent_name(100, 10), Some(String::from("Bob")));
    assert_eq!(d.lookup_opponent_name(100, 20), Some(String::from("Alice")));
    assert_eq!(d.lookup_opponent_name(100, 30), None);
    assert_eq!(d.lookup_opponent_name(999, 10), None);
}

#[test]
fn one_duel_state_machine() {
    let mut od = OneDuel::new(10, 20, String::from("Alice"), String::from("Bob"), 100, 5);
    assert!(od.not_ready());
    assert!(!od.cannot_shoot(10));
    assert!(!od.cannot_shoot(20));
    assert!(od.cannot_shoot(30));
    od.set_value(10, 6);
    assert!(od.cannot_shoot(10));
    assert!(!od.cannot_shoot(20));
    assert!(od.not_ready());
    od.set_value(20, 2);
    assert!(!od.not_ready());
    assert_eq!(od.results(), (6, 2));
    let (opponent, own) = od.opponent_name(10);
    assert_eq!(opponent, "Bob");
    assert_eq!(own, "Alice");
}

#[test]
fn set_value_never_overwrites_a_filled_slot() {
    let mut od = OneDuel::new(10, 20, String::from("Alice"), String::from("Bob"), 100, 5);
    od.set_value(10, 5);
    od.set_value(10, 3);
    assert!(od.cannot_shoot(10));
    od.set_value(20, 2);
    assert_eq!(od.results(), (5, 2));
}

#[test]
fn standings_by_wins_ties_keep_insertion_order() {
    let mut d = Duel::new();
    d.start_duel(5, 6, String::from("e"), String::from("f"), 200, 2);
    d.start_duel(7, 8, String::from("g"), String::from("h"), 201, 2);
    let top = d.standings_by_wins();
    let ids: Vec<u64> = top.iter().map(|(k, _)| *k).collect();
    assert_eq!(ids, vec![5, 6, 7, 8]);
}

#[test]
fn standings_by_wins_sorts_best_first() {
    let mut d = Duel::new();
    d.start_duel(1, 2, String::from("a"), String::from("b"), 100, 2);
    assert_eq!(d.shoot(100, 1, 6), Shoot::Pending);
    assert!(matches!(d.shoot(100, 2, 1), Shoot::Loser { .. }));
    d.start_duel(1, 3, String::from("a"), String::from("c"), 101, 2);
    assert_eq!(d.shoot(101, 1, 6), Shoot::Pending);
    assert!(matches!(d.shoot(101, 3, 1), Shoot::Loser { .. }));
    d.start_duel(2, 3, String::from("b"), String::from("c"), 102, 2);
    assert_eq!(d.shoot(102, 2, 5), Shoot::Pending);
    assert!(matches!(d.shoot(102, 3, 4), Shoot::Loser { .. }));
    let top = d.standings_by_wins();
    assert_eq!(top.len(), 3);
    assert_eq!(top[0], (1, DuelRecord { win: 2, lose: 0 }));
    assert_eq!(top[1], (2, DuelRecord { win: 1, lose: 1 }));
    assert_eq!(top[2], (3, DuelRecord { win: 0, lose: 2 }));
}

#[test]
fn dice_bookkeeping_hands_back_everything() {
    let mut d = Duel::new();
    d.push_dice(501);
    d.push_dice(502);
    let taken = d.take_dices();
    assert_eq!(taken, vec![501, 502]);
    assert_eq!(d.take_dices(), Vec::<i64>::new());
}

#[test]
fn records_survive_a_snapshot_round_trip() {
    let mut d = opened_duel();
    assert_eq!(d.shoot(100, 10, 5), Shoot::Pending);
    assert!(matches!(d.shoot(100, 20, 2), Shoot::Loser { .. }));
    let snap = d.records_snapshot();
    assert!(Duel::check_records(&snap));
    let back = Duel::from_records(snap);
    assert_eq!(back.records_snapshot(), d.records_snapshot());
    // Live duels are announcement-scoped and not part of the snapshot.
    assert_eq!(back.open_duels.len(), 0);
}

#[test]
fn check_records_rejects_duplicate_keys() {
    let mut bad: Vec<(u64, DuelRecord)> = Vec::new();
    bad.push((1, DuelRecord { win: 0, lose: 0 }));
    bad.push((1, DuelRecord { win: 1, lose: 0 }));
    assert!(!Duel::check_records(&bad));
}
