//! The engine facade: the two stores plus the periodic refresh, exposed to
//! the event dispatcher as one small set of atomic operations. A handler task
//! needs nothing below this module; the dispatcher routes each incoming chat
//! event to exactly one call here, and performs any suspending work (sending
//! or deleting messages) only after the call has returned, using the values
//! the call handed back.

use vstd::prelude::*;

use crate::casino::{
    models, refresh_spec, sorted_by_points_desc, spin_denied, spin_step, Ledger, Record,
    RecordModel, SlotResult, SpinOutcome,
};
use crate::duel::{
    is_participant, opponent_of, shoot_allowed, shoot_step, shoot_verdict, sorted_by_wins_desc,
    start_duel_spec, Duel, DuelRecord, DuelView, Shoot,
};
use crate::kv::{has_key, idx_of, keys_unique, val_of};

verus! {

/// The whole game state: the ledger and the duel table. The two stores are
/// independent; a process shares each behind its own exclusive lock, and
/// every operation below is one critical section on the store it touches.
pub struct Engine {
    pub casino: Ledger,
    pub duel: Duel,
}

impl Engine {
    pub open spec fn ledger_view(self) -> Seq<(u64, RecordModel)> {
        self.casino@
    }

    pub open spec fn duel_view(self) -> DuelView {
        self.duel@
    }

    pub open spec fn wf(self) -> bool {
        self.casino.wf() && self.duel.wf()
    }

    pub fn new() -> (r: Self)
        ensures
            r.wf(),
            r.ledger_view() == Seq::<(u64, RecordModel)>::empty(),
            r.duel_view().records == Seq::<(u64, DuelRecord)>::empty(),
            r.duel_view().duels.len() == 0,
    {
        Engine { casino: Ledger::new(), duel: Duel::new() }
    }

    /// Rebuilds the engine from the two persisted snapshots; live duels are
    /// announcement-scoped and deliberately not part of any snapshot.
    pub fn from_snapshots(entries: Vec<(u64, Record)>, records: Vec<(u64, DuelRecord)>) -> (r: Self)
        requires
            crate::casino::ledger_wf(models(entries@)),
            keys_unique(records@),
        ensures
            r.wf(),
            r.ledger_view() == models(entries@),
            r.duel_view().records == records@,
            r.duel_view().duels.len() == 0,
    {
        Engine { casino: Ledger::from_entries(entries), duel: Duel::from_records(records) }
    }

    /// One atomic spin attempt; see `Ledger::try_spin`.
    pub fn try_spin(&mut self, id: u64, name: String, outcome: SlotResult) -> (r: SpinOutcome)
        requires
            old(self).wf(),
            has_key(old(self).ledger_view(), id) ==> val_of(old(self).ledger_view(), id).points
                + outcome.point_value_spec() <= usize::MAX && val_of(
                old(self).ledger_view(),
                id,
            ).tries < usize::MAX,
        ensures
            final(self).wf(),
            final(self).duel_view() == old(self).duel_view(),
            final(self).ledger_view() == spin_step(
                old(self).ledger_view(),
                id,
                name@,
                outcome.point_value_spec() as int,
            ),
            spin_denied(old(self).ledger_view(), id) ==> r == SpinOutcome::Denied
                && final(self).ledger_view() == old(self).ledger_view(),
            !spin_denied(old(self).ledger_view(), id) ==> (r matches SpinOutcome::Granted {
                points,
                tries,
            } && has_key(final(self).ledger_view(), id) && points == val_of(
                final(self).ledger_view(),
                id,
            ).points && tries == val_of(final(self).ledger_view(), id).tries),
    {
        self.casino.try_spin(id, name, outcome)
    }

    /// The periodic tick: restores every player's spin allowance and hands
    /// back a fresh ledger snapshot for the persistence collaborator to
    /// write; the timer itself lives outside the engine.
    pub fn tick(&mut self) -> (r: Vec<(u64, Record)>)
        requires
            old(self).wf(),
        ensures
            final(self).wf(),
            final(self).duel_view() == old(self).duel_view(),
            final(self).ledger_view() == refresh_spec(old(self).ledger_view()),
            models(r@) == final(self).ledger_view(),
    {
        self.casino.refresh_tries();
        self.casino.snapshot()
    }

    /// Restores every player's spin allowance to the daily cap.
    pub fn refresh_all(&mut self)
        requires
            old(self).wf(),
        ensures
            final(self).wf(),
            final(self).duel_view() == old(self).duel_view(),
            final(self).ledger_view() == refresh_spec(old(self).ledger_view()),
    {
        self.casino.refresh_tries();
    }

    /// The casino ranking; see `Ledger::standings`.
    pub fn standings(&self) -> (r: Vec<(u64, Record)>)
        requires
            self.wf(),
        ensures
            models(r@).to_multiset() == self.ledger_view().to_multiset(),
            sorted_by_points_desc(models(r@)),
            forall|i: int, j: int|
                0 <= i < j < r@.len() && (#[trigger] models(r@)[i]).1.points == (#[trigger] models(
                    r@,
                )[j]).1.points ==> idx_of(self.ledger_view(), models(r@)[i].0) < idx_of(
                    self.ledger_view(),
                    models(r@)[j].0,
                ),
    {
        self.casino.standings()
    }

    /// Atomically opens a duel; see `Duel::start_duel`.
    pub fn open_duel(
        &mut self,
        pushkin: u64,
        dantes: u64,
        user1: String,
        user2: String,
        x: i64,
        t: i64,
    )
        requires
            old(self).wf(),
        ensures
            final(self).wf(),
            final(self).ledger_view() == old(self).ledger_view(),
            final(self).duel_view() == start_duel_spec(
                old(self).duel_view(),
                pushkin,
                dantes,
                user1@,
                user2@,
                x,
                t,
            ),
    {
        self.duel.start_duel(pushkin, dantes, user1, user2, x, t);
    }

    /// Atomically registers a throw and, when it is the second, resolves the
    /// duel in the same step; see `Duel::shoot`.
    pub fn register_throw(&mut self, x: i64, id: u64, value: i32) -> (r: Shoot)
        requires
            old(self).wf(),
            shoot_allowed(old(self).duel_view(), x, id) ==> ({
                let od = val_of(old(self).duel_view().duels, x);
                &&& val_of(old(self).duel_view().records, od.pushkin).win < usize::MAX
                &&& val_of(old(self).duel_view().records, od.pushkin).lose < usize::MAX
                &&& val_of(old(self).duel_view().records, od.dantes).win < usize::MAX
                &&& val_of(old(self).duel_view().records, od.dantes).lose < usize::MAX
            }),
        ensures
            final(self).wf(),
            final(self).ledger_view() == old(self).ledger_view(),
            final(self).duel_view() == shoot_step(old(self).duel_view(), x, id, value),
            r@ == shoot_verdict(old(self).duel_view(), x, id, value),
    {
        self.duel.shoot(x, id, value)
    }

    /// May `id` still throw in the duel under `x`?
    pub fn can_act(&self, x: i64, id: u64) -> (r: bool)
        requires
            self.wf(),
        ensures
            r == shoot_allowed(self.duel_view(), x, id),
    {
        self.duel.can_act(x, id)
    }

    /// The opponent's display name for a participant of a live duel.
    pub fn lookup_opponent_name(&self, x: i64, id: u64) -> (r: Option<String>)
        requires
            self.wf(),
        ensures
            match r {
                Some(name) => has_key(self.duel_view().duels, x) && is_participant(
                    val_of(self.duel_view().duels, x),
                    id,
                ) && name@ == opponent_of(val_of(self.duel_view().duels, x), id),
                None => !(has_key(self.duel_view().duels, x) && is_participant(
                    val_of(self.duel_view().duels, x),
                    id,
                )),
            },
    {
        self.duel.lookup_opponent_name(x, id)
    }

    /// The duel ranking; see `Duel::standings_by_wins`.
    pub fn standings_by_wins(&self) -> (r: Vec<(u64, DuelRecord)>)
        requires
            self.wf(),
        ensures
            r@.to_multiset() == self.duel_view().records.to_multiset(),
            sorted_by_wins_desc(r@),
            forall|i: int, j: int|
                0 <= i < j < r@.len() && (#[trigger] r@[i]).1.win == (#[trigger] r@[j]).1.win
                    ==> idx_of(self.duel_view().records, r@[i].0) < idx_of(
                    self.duel_view().records,
                    r@[j].0,
                ),
    {
        self.duel.standings_by_wins()
    }

    /// Snapshots for the persistence collaborator.
    pub fn ledger_snapshot(&self) -> (r: Vec<(u64, Record)>)
        ensures
            models(r@) == self.ledger_view(),
    {
        self.casino.snapshot()
    }

    pub fn duel_snapshot(&self) -> (r: Vec<(u64, DuelRecord)>)
        ensures
            r@ == self.duel_view().records,
    {
        self.duel.records_snapshot()
    }
}

} // verus!
