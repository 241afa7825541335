use ayabot::casino::{SlotResult, SpinOutcome};
use ayabot::duel::Shoot;
use ayabot::engine::Engine;

#[test]
fn engine_routes_spins_and_duels_independently() {
    let mut e = Engine::new();
    let out = e.try_spin(7, String::from("alice"), SlotResult::Sevens);
    assert_eq!(out, SpinOutcome::Granted { points: 5, tries: 1 });
    e.open_duel(10, 20, String::from("Alice"), String::from("Bob"), 100, 3);
    assert!(e.can_act(100, 10));
    assert_eq!(e.register_throw(100, 10, 6), Shoot::Pending);
    let v = e.register_throw(100, 20, 1);
    assert_eq!(
        v,
        Shoot::Loser {
            loser: 20,
            loser_name: String::from("Bob"),
            winner: 10,
            winner_name: String::from("Alice"),
            penalty: 3,
        }
    );
    assert_eq!(e.lookup_opponent_name(100, 10), None);
    let wins = e.standings_by_wins();
    assert_eq!(wins[0].0, 10);
    assert_eq!(wins[0].1.win, 1);
}

#[test]
fn engine_tick_refreshes_and_snapshots() {
    let mut e = Engine::new();
    e.try_spin(1, String::from("a"), SlotResult::Bars);
    e.try_spin(1, String::from("a"), SlotResult::Bars);
    e.try_spin(1, String::from("a"), SlotResult::Bars);
    assert_eq!(e.try_spin(1, String::from("a"), SlotResult::Bars), SpinOutcome::Denied);
    let snap = e.tick();
    assert_eq!(snap.len(), 1);
    assert_eq!(snap[0].1.tries_left, 3);
    assert_eq!(snap[0].1.points, 3);
    // After the tick the player may spin again.
    assert_eq!(
        e.try_spin(1, String::from("a"), SlotResult::Grapes),
        SpinOutcome::Granted { points: 5, tries: 4 }
    );
}

#[test]
fn engine_restores_from_snapshots() {
    let mut e = Engine::new();
    e.try_spin(1, String::from("a"), SlotResult::Lemons);
    e.open_duel(1, 2, String::from("a"), String::from("b"), 100, 2);
    assert_eq!(e.register_throw(100, 1, 5), Shoot::Pending);
    assert!(matches!(e.register_throw(100, 2, 3), Shoot::Loser { .. }));
    let ledger_snap = e.ledger_snapshot();
    let duel_snap = e.duel_snapshot();
    let e2 = Engine::from_snapshots(ledger_snap, duel_snap);
    assert_eq!(e2.ledger_snapshot(), e.ledger_snapshot());
    assert_eq!(e2.duel_snapshot(), e.duel_snapshot());
}

#[test]
fn engine_standings_reflect_points() {
    let mut e = Engine::new();
    e.try_spin(1, String::from("a"), SlotResult::Bars);
    e.try_spin(2, String::from("b"), SlotResult::Sevens);
    let top = e.standings();
    assert_eq!(top[0].0, 2);
    assert_eq!(top[1].0, 1);
}
