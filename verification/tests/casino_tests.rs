use ayabot::casino::{Ledger, Record, SlotResult, SpinOutcome, DAILY_CAP};

#[test]
fn outcome_table_points() {
    assert_eq!(SlotResult::Bars.point_value(), 1);
    assert_eq!(SlotResult::Grapes.point_value(), 2);
    assert_eq!(SlotResult::Lemons.point_value(), 3);
    assert_eq!(SlotResult::Sevens.point_value(), 5);
    assert_eq!(SlotResult::Nothing.point_value(), 0);
}

#[test]
fn outcome_table_from_dice() {
    assert_eq!(SlotResult::from(1), SlotResult::Bars);
    assert_eq!(SlotResult::from(22), SlotResult::Grapes);
    assert_eq!(SlotResult::from(43), SlotResult::Lemons);
    assert_eq!(SlotResult::from(64), SlotResult::Sevens);
    assert_eq!(SlotResult::from(0), SlotResult::Nothing);
    assert_eq!(SlotResult::from(2), SlotResult::Nothing);
    assert_eq!(SlotResult::from(-7), SlotResult::Nothing);
}

#[test]
fn outcome_table_labels() {
    assert_eq!(SlotResult::Bars.label(), "бабки");
    assert_eq!(SlotResult::Grapes.label(), "бабулесы");
    assert_eq!(SlotResult::Lemons.label(), "бабло");
    assert_eq!(SlotResult::Sevens.label(), "деньги");
    assert_eq!(SlotResult::Nothing.label(), "");
}

#[test]
fn record_new_has_full_allowance() {
    let r = Record::new(String::from("alice"));
    assert_eq!(r.user_name, "alice");
    assert_eq!(r.points, 0);
    assert_eq!(r.tries, 0);
    assert_eq!(r.tries_left, DAILY_CAP);
}

#[test]
fn record_spin_applies_outcome() {
    let mut r = Record::new(String::from("alice"));
    r.spin(SlotResult::Sevens);
    assert_eq!(r.points, 5);
    assert_eq!(r.tries, 1);
    assert_eq!(r.tries_left, DAILY_CAP - 1);
}

#[test]
fn first_spin_creates_record() {
    let mut ledger = Ledger::new();
    let out = ledger.try_spin(7, String::from("alice"), SlotResult::Grapes);
    assert_eq!(out, SpinOutcome::Granted { points: 2, tries: 1 });
    assert_eq!(ledger.entries.len(), 1);
    assert_eq!(ledger.entries[0].0, 7);
    assert_eq!(ledger.entries[0].1.tries_left, DAILY_CAP - 1);
}

#[test]
fn spin_with_empty_allowance_is_denied_and_changes_nothing() {
    let mut ledger = Ledger::new();
    ledger.try_spin(7, String::from("alice"), SlotResult::Bars);
    ledger.try_spin(7, String::from("alice"), SlotResult::Bars);
    ledger.try_spin(7, String::from("alice"), SlotResult::Bars);
    let before = ledger.snapshot();
    let out = ledger.try_spin(7, String::from("alice"), SlotResult::Sevens);
    assert_eq!(out, SpinOutcome::Denied);
    assert_eq!(ledger.snapshot(), before);
    assert_eq!(ledger.entries[0].1.points, 3);
    assert_eq!(ledger.entries[0].1.tries, 3);
}

#[test]
fn burst_of_five_spins_grants_exactly_three() {
    let mut ledger = Ledger::new();
    let mut granted = 0;
    let mut denied = 0;
    for _ in 0..5 {
        match ledger.try_spin(7, String::from("alice"), SlotResult::Bars) {
            SpinOutcome::Granted { .. } => granted += 1,
            SpinOutcome::Denied => denied += 1,
        }
    }
    assert_eq!(granted, 3);
    assert_eq!(denied, 2);
    assert_eq!(ledger.entries[0].1.tries, 3);
    assert_eq!(ledger.entries[0].1.tries_left, 0);
}

#[test]
fn refresh_is_idempotent_and_keeps_points() {
    let mut ledger = Ledger::new();
    ledger.try_spin(1, String::from("a"), SlotResult::Sevens);
    ledger.try_spin(1, String::from("a"), SlotResult::Bars);
    ledger.try_spin(2, String::from("b"), SlotResult::Lemons);
    ledger.refresh_tries();
    let once = ledger.snapshot();
    ledger.refresh_tries();
    let twice = ledger.snapshot();
    assert_eq!(once, twice);
    for (_, rec) in once.iter() {
        assert_eq!(rec.tries_left, DAILY_CAP);
    }
    assert_eq!(once[0].1.points, 6);
    assert_eq!(once[1].1.points, 3);
}

#[test]
fn five_outcomes_once_each_score_eleven() {
    let mut ledger = Ledger::new();
    ledger.try_spin(9, String::from("carol"), SlotResult::Bars);
    ledger.try_spin(9, String::from("carol"), SlotResult::Grapes);
    ledger.try_spin(9, String::from("carol"), SlotResult::Lemons);
    ledger.refresh_tries();
    ledger.try_spin(9, String::from("carol"), SlotResult::Sevens);
    ledger.try_spin(9, String::from("carol"), SlotResult::Nothing);
    let top = ledger.standings();
    assert_eq!(top.len(), 1);
    assert_eq!(top[0].0, 9);
    assert_eq!(top[0].1.points, 1 + 2 + 3 + 5);
    assert_eq!(top[0].1.tries, 5);
}

#[test]
fn standings_sort_by_points_descending() {
    let mut ledger = Ledger::new();
    ledger.try_spin(1, String::from("a"), SlotResult::Bars);
    ledger.try_spin(2, String::from("b"), SlotResult::Sevens);
    ledger.try_spin(3, String::from("c"), SlotResult::Lemons);
    let top = ledger.standings();
    assert_eq!(top.len(), 3);
    assert_eq!(top[0].0, 2);
    assert_eq!(top[1].0, 3);
    assert_eq!(top[2].0, 1);
    // The ledger itself stays in insertion order.
    assert_eq!(ledger.entries[0].0, 1);
}

#[test]
fn standings_ties_keep_insertion_order() {
    let mut ledger = Ledger::new();
    ledger.try_spin(3, String::from("c"), SlotResult::Bars);
    ledger.try_spin(1, String::from("a"), SlotResult::Bars);
    ledger.try_spin(9, String::from("z"), SlotResult::Sevens);
    ledger.try_spin(2, String::from("b"), SlotResult::Bars);
    let top = ledger.standings();
    let ids: Vec<u64> = top.iter().map(|(k, _)| *k).collect();
    assert_eq!(ids, vec![9, 3, 1, 2]);
}

#[test]
fn last_seen_display_name_wins() {
    let mut ledger = Ledger::new();
    ledger.try_spin(7, String::from("old name"), SlotResult::Bars);
    ledger.try_spin(7, String::from("new name"), SlotResult::Bars);
    assert_eq!(ledger.entries[0].1.user_name, "new name");
}

#[test]
fn check_entries_accepts_a_good_snapshot() {
    let mut ledger = Ledger::new();
    ledger.try_spin(1, String::from("a"), SlotResult::Bars);
    ledger.try_spin(2, String::from("b"), SlotResult::Grapes);
    let snap = ledger.snapshot();
    assert!(Ledger::check_entries(&snap));
    let back = Ledger::from_entries(snap);
    assert_eq!(back.snapshot(), ledger.snapshot());
}

#[test]
fn check_entries_rejects_duplicate_keys() {
    let mut bad: Vec<(u64, Record)> = Vec::new();
    bad.push((1, Record::new(String::from("a"))));
    bad.push((1, Record::new(String::from("b"))));
    assert!(!Ledger::check_entries(&bad));
}

#[test]
fn check_entries_rejects_allowance_above_cap() {
    let mut bad: Vec<(u64, Record)> = Vec::new();
    let mut rec = Record::new(String::from("a"));
    rec.tries_left = DAILY_CAP + 1;
    bad.push((1, rec));
    assert!(!Ledger::check_entries(&bad));
}
