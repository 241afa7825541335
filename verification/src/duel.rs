//! The duel table: in-flight two-player duels keyed by their announcement
//! message, and the lifetime win/loss record of every player who ever duelled.
//!
//! A duel is `Pending` until both participants have thrown; the throw that
//! fills the second slot resolves the duel in the same atomic step — verdict
//! computed, records credited exactly once, duel removed from the live set —
//! so no concurrent caller can observe or cause a half-resolved duel.

use vstd::prelude::*;

use crate::kv::{
    has_key, idx_of, keys_unique, lemma_idx_of, lemma_idx_of_unique, lemma_remove_entry, val_of,
};

verus! {

/// One participant's lifetime aggregate over all resolved duels.
#[derive(Clone, Copy, Debug, PartialEq, Eq, Structural)]
pub struct DuelRecord {
    pub win: usize,
    pub lose: usize,
}

impl DuelRecord {
    pub fn new() -> (r: Self)
        ensures
            r == (DuelRecord { win: 0, lose: 0 }),
    {
        Self { win: 0, lose: 0 }
    }
}

/// One in-flight duel. The display names are snapshots taken when the duel
/// was announced; they are never re-resolved, so the duel's text stays stable
/// even if a player renames mid-duel. The two participants are in arbitrary
/// but fixed order, named after the famous duellists.
#[derive(Debug)]
pub struct OneDuel {
    pub time: i64,
    pub msg: i64,
    pub pushkin_name: String,
    pub pushkin: u64,
    pub pushkin_throw: Option<i32>,
    pub dantes_name: String,
    pub dantes: u64,
    pub dantes_throw: Option<i32>,
}

/// Mathematical shadow of `OneDuel`.
#[verifier::ext_equal]
pub ghost struct OneDuelModel {
    pub time: i64,
    pub msg: i64,
    pub pushkin_name: Seq<char>,
    pub pushkin: u64,
    pub pushkin_throw: Option<i32>,
    pub dantes_name: Seq<char>,
    pub dantes: u64,
    pub dantes_throw: Option<i32>,
}

impl View for OneDuel {
    type V = OneDuelModel;

    open spec fn view(&self) -> OneDuelModel {
        OneDuelModel {
            time: self.time,
            msg: self.msg,
            pushkin_name: self.pushkin_name@,
            pushkin: self.pushkin,
            pushkin_throw: self.pushkin_throw,
            dantes_name: self.dantes_name@,
            dantes: self.dantes,
            dantes_throw: self.dantes_throw,
        }
    }
}

/// A duel as it is announced: no throw recorded for either participant.
pub open spec fn fresh_duel(
    pushkin: u64,
    dantes: u64,
    pushkin_name: Seq<char>,
    dantes_name: Seq<char>,
    x: i64,
    t: i64,
) -> OneDuelModel {
    OneDuelModel {
        time: t,
        msg: x,
        pushkin_name: pushkin_name,
        pushkin: pushkin,
        pushkin_throw: None,
        dantes_name: dantes_name,
        dantes: dantes,
        dantes_throw: None,
    }
}

/// `id` may still act: it names a participant whose slot is empty.
pub open spec fn can_act_duel(od: OneDuelModel, id: u64) -> bool {
    (id == od.pushkin && od.pushkin_throw is None) || (id == od.dantes && od.dantes_throw is None)
}

/// Both slots are filled, so the duel is ready to resolve.
pub open spec fn duel_ready(od: OneDuelModel) -> bool {
    od.pushkin_throw is Some && od.dantes_throw is Some
}

/// Recording a throw: each slot whose participant matches and is still empty
/// takes the value. A participant has at most one throw for the lifetime of
/// the duel, so a filled slot keeps its value.
pub open spec fn set_value_spec(od: OneDuelModel, id: u64, value: i32) -> OneDuelModel {
    OneDuelModel {
        time: od.time,
        msg: od.msg,
        pushkin_name: od.pushkin_name,
        pushkin: od.pushkin,
        pushkin_throw: if id == od.pushkin && od.pushkin_throw is None {
            Some(value)
        } else {
            od.pushkin_throw
        },
        dantes_name: od.dantes_name,
        dantes: od.dantes,
        dantes_throw: if id == od.dantes && od.dantes_throw is None {
            Some(value)
        } else {
            od.dantes_throw
        },
    }
}

impl OneDuel {
    pub fn new(
        pushkin: u64,
        dantes: u64,
        pushkin_name: String,
        dantes_name: String,
        x: i64,
        t: i64,
    ) -> (r: Self)
        ensures
            r@ == fresh_duel(pushkin, dantes, pushkin_name@, dantes_name@, x, t),
    {
        Self {
            time: t,
            msg: x,
            pushkin_name,
            pushkin,
            pushkin_throw: None,
            dantes_name,
            dantes,
            dantes_throw: None,
        }
    }

    /// `x` may not throw here: unknown participant, or slot already filled.
    pub fn cannot_shoot(&self, x: u64) -> (r: bool)
        ensures
            r == !can_act_duel(self@, x),
    {
        if x == self.pushkin && self.pushkin_throw.is_none() {
            false
        } else if x == self.dantes && self.dantes_throw.is_none() {
            false
        } else {
            true
        }
    }

    /// At least one slot is still empty.
    pub fn not_ready(&self) -> (r: bool)
        ensures
            r == !duel_ready(self@),
    {
        self.pushkin_throw.is_none() || self.dantes_throw.is_none()
    }

    /// Records a throw into every slot whose participant is `id` and which
    /// is still empty; a filled slot is never overwritten.
    pub fn set_value(&mut self, id: u64, value: i32)
        ensures
            final(self)@ == set_value_spec(old(self)@, id, value),
    {
        if id == self.pushkin && self.pushkin_throw.is_none() {
            self.pushkin_throw = Some(value);
        }
        if id == self.dantes && self.dantes_throw.is_none() {
            self.dantes_throw = Some(value);
        }
    }

    /// Given one participant, the pair (opponent's name, own name); a caller
    /// that is not the first participant is taken for the second.
    pub fn opponent_name(&self, id: u64) -> (r: (String, String))
        ensures
            id == self@.pushkin ==> r.0@ == self@.dantes_name && r.1@ == self@.pushkin_name,
            id != self@.pushkin ==> r.0@ == self@.pushkin_name && r.1@ == self@.dantes_name,
    {
        if id == self.pushkin {
            (self.dantes_name.clone(), self.pushkin_name.clone())
        } else {
            (self.pushkin_name.clone(), self.dantes_name.clone())
        }
    }

    /// The two recorded throws of a ready duel.
    pub fn results(&self) -> (r: (i32, i32))
        requires
            duel_ready(self@),
        ensures
            r.0 == self@.pushkin_throw.unwrap(),
            r.1 == self@.dantes_throw.unwrap(),
    {
        (self.pushkin_throw.unwrap(), self.dantes_throw.unwrap())
    }
}

/// The result of a throw registration, carrying everything the caller needs
/// to render the outcome after the duel has already left the live set.
#[derive(Debug, PartialEq, Eq)]
pub enum Shoot {
    Loser { loser: u64, loser_name: String, winner: u64, winner_name: String, penalty: i64 },
    Draw,
    Pending,
}

/// Mathematical shadow of `Shoot`.
#[verifier::ext_equal]
pub ghost enum ShootModel {
    Loser { loser: u64, loser_name: Seq<char>, winner: u64, winner_name: Seq<char>, penalty: i64 },
    Draw,
    Pending,
}

impl View for Shoot {
    type V = ShootModel;

    open spec fn view(&self) -> ShootModel {
        match self {
            Shoot::Loser { loser, loser_name, winner, winner_name, penalty } => ShootModel::Loser {
                loser: *loser,
                loser_name: loser_name@,
                winner: *winner,
                winner_name: winner_name@,
                penalty: *penalty,
            },
            Shoot::Draw => ShootModel::Draw,
            Shoot::Pending => ShootModel::Pending,
        }
    }
}

/// The verdict of a ready duel: the strictly smaller throw loses; equal
/// throws are a draw that credits neither player.
pub open spec fn verdict_spec(od: OneDuelModel) -> ShootModel {
    let p = od.pushkin_throw.unwrap();
    let q = od.dantes_throw.unwrap();
    if p < q {
        ShootModel::Loser {
            loser: od.pushkin,
            loser_name: od.pushkin_name,
            winner: od.dantes,
            winner_name: od.dantes_name,
            penalty: od.time,
        }
    } else if p == q {
        ShootModel::Draw
    } else {
        ShootModel::Loser {
            loser: od.dantes,
            loser_name: od.dantes_name,
            winner: od.pushkin,
            winner_name: od.pushkin_name,
            penalty: od.time,
        }
    }
}

/// Crediting a resolved duel: on a decisive verdict the winner's wins and the
/// loser's losses each grow by one, exactly once; a draw credits neither.
pub open spec fn credit_spec(records: Seq<(u64, DuelRecord)>, od: OneDuelModel) -> Seq<
    (u64, DuelRecord),
> {
    match verdict_spec(od) {
        ShootModel::Loser { loser, winner, .. } => {
            let w = val_of(records, winner);
            let r1 = records.update(
                idx_of(records, winner),
                (winner, DuelRecord { win: (w.win + 1) as usize, lose: w.lose }),
            );
            let l = val_of(r1, loser);
            r1.update(idx_of(r1, loser), (loser, DuelRecord { win: l.win, lose: (l.lose + 1) as usize }))
        },
        _ => records,
    }
}

/// Maps a concrete duel list to its mathematical model.
pub open spec fn duel_models(s: Seq<(i64, OneDuel)>) -> Seq<(i64, OneDuelModel)> {
    s.map_values(|p: (i64, OneDuel)| (p.0, p.1@))
}

/// The duel table's mathematical model: the win/loss records, the live duels
/// in insertion order, and the auxiliary dice-message bookkeeping list.
#[verifier::ext_equal]
pub ghost struct DuelView {
    pub records: Seq<(u64, DuelRecord)>,
    pub duels: Seq<(i64, OneDuelModel)>,
    pub dices: Seq<i64>,
}

/// Every live duel is keyed by its own announcement message and both of its
/// participants already have a win/loss record.
pub open spec fn duel_entry_wf(p: (i64, OneDuelModel), records: Seq<(u64, DuelRecord)>) -> bool {
    &&& p.1.msg == p.0
    &&& has_key(records, p.1.pushkin)
    &&& has_key(records, p.1.dantes)
}

pub open spec fn duel_wf(d: DuelView) -> bool {
    &&& keys_unique(d.records)
    &&& keys_unique(d.duels)
    &&& forall|i: int| 0 <= i < d.duels.len() ==> duel_entry_wf(#[trigger] d.duels[i], d.records)
}

/// Lazily creates a win/loss record, keeping existing ones untouched.
pub open spec fn ensure_rec(records: Seq<(u64, DuelRecord)>, id: u64) -> Seq<(u64, DuelRecord)> {
    if has_key(records, id) {
        records
    } else {
        records.push((id, DuelRecord { win: 0, lose: 0 }))
    }
}

/// Stores a duel under its key, silently overwriting any previous duel there.
pub open spec fn put_duel(
    duels: Seq<(i64, OneDuelModel)>,
    key: i64,
    od: OneDuelModel,
) -> Seq<(i64, OneDuelModel)> {
    if has_key(duels, key) {
        duels.update(idx_of(duels, key), (key, od))
    } else {
        duels.push((key, od))
    }
}

/// The atomic transition `start_duel` performs.
pub open spec fn start_duel_spec(
    d: DuelView,
    pushkin: u64,
    dantes: u64,
    user1: Seq<char>,
    user2: Seq<char>,
    x: i64,
    t: i64,
) -> DuelView {
    DuelView {
        records: ensure_rec(ensure_rec(d.records, pushkin), dantes),
        duels: put_duel(d.duels, x, fresh_duel(pushkin, dantes, user1, user2, x, t)),
        dices: d.dices,
    }
}

/// `ensure_rec` keeps unique keys, adds at most the asked-for key, and leaves
/// every present record's value alone.
pub proof fn lemma_ensure_rec(records: Seq<(u64, DuelRecord)>, id: u64)
    requires
        keys_unique(records),
    ensures
        keys_unique(ensure_rec(records, id)),
        has_key(ensure_rec(records, id), id),
        forall|k: u64|
            #[trigger] has_key(ensure_rec(records, id), k) <==> (has_key(records, k) || k == id),
        forall|k: u64|
            has_key(records, k) ==> #[trigger] val_of(ensure_rec(records, id), k) == val_of(
                records,
                k,
            ),
        !has_key(records, id) ==> val_of(ensure_rec(records, id), id) == (DuelRecord {
            win: 0,
            lose: 0,
        }),
{
    let w = ensure_rec(records, id);
    if !has_key(records, id) {
        let n = records.len() as int;
        assert(w[n].0 == id);
        assert(keys_unique(w)) by {
            assert(forall|i: int| 0 <= i < n ==> (#[trigger] w[i]).0 != id);
        }
        lemma_idx_of_unique(w, id, n);
        assert forall|k: u64| #[trigger] has_key(w, k) <==> (has_key(records, k) || k == id) by {
            if has_key(w, k) {
                lemma_idx_of(w, k);
                let i = idx_of(w, k);
                if i < n {
                    assert(records[i].0 == k);
                }
            }
            if has_key(records, k) {
                lemma_idx_of(records, k);
                let i = idx_of(records, k);
                assert(w[i].0 == k);
            }
        }
        assert forall|k: u64| has_key(records, k) implies #[trigger] val_of(w, k) == val_of(
            records,
            k,
        ) by {
            lemma_idx_of(records, k);
            let i = idx_of(records, k);
            assert(w[i].0 == k);
            lemma_idx_of_unique(w, k, i);
        }
    }
}

/// `put_duel` keeps unique keys, stores exactly the given duel under the key,
/// and leaves every other entry alone.
pub proof fn lemma_put_duel(duels: Seq<(i64, OneDuelModel)>, key: i64, od: OneDuelModel)
    requires
        keys_unique(duels),
    ensures
        keys_unique(put_duel(duels, key, od)),
        has_key(put_duel(duels, key, od), key),
        val_of(put_duel(duels, key, od), key) == od,
        forall|k: i64|
            k != key ==> ((has_key(put_duel(duels, key, od), k) <==> has_key(duels, k)) && (
            has_key(duels, k) ==> val_of(put_duel(duels, key, od), k) == val_of(duels, k))),
{
    let w = put_duel(duels, key, od);
    if has_key(duels, key) {
        lemma_idx_of(duels, key);
        let i = idx_of(duels, key);
        assert(keys_unique(w));
        lemma_idx_of_unique(w, key, i);
        assert forall|k: i64| k != key implies ((#[trigger] has_key(w, k) <==> has_key(duels, k))
            && (has_key(duels, k) ==> val_of(w, k) == val_of(duels, k))) by {
            if has_key(duels, k) {
                lemma_idx_of(duels, k);
                let j = idx_of(duels, k);
                assert(j != i);
                assert(w[j].0 == k);
                lemma_idx_of_unique(w, k, j);
            }
            if has_key(w, k) {
                lemma_idx_of(w, k);
                let j = idx_of(w, k);
                assert(j != i);
                assert(duels[j].0 == k);
                lemma_idx_of_unique(duels, k, j);
            }
        }
    } else {
        let n = duels.len() as int;
        assert(w[n].0 == key);
        assert(keys_unique(w)) by {
            assert(forall|i: int| 0 <= i < n ==> (#[trigger] w[i]).0 != key);
        }
        lemma_idx_of_unique(w, key, n);
        assert forall|k: i64| k != key implies ((has_key(w, k) <==> has_key(duels, k)) && (
        has_key(duels, k) ==> val_of(w, k) == val_of(duels, k))) by {
            if has_key(duels, k) {
                lemma_idx_of(duels, k);
                let i = idx_of(duels, k);
                assert(w[i].0 == k);
                lemma_idx_of_unique(w, k, i);
            }
            if has_key(w, k) {
                lemma_idx_of(w, k);
                let i = idx_of(w, k);
                assert(i < n);
                assert(duels[i].0 == k);
            }
        }
    }
}

/// The store of all duel state, owned exclusively; a caller shares it behind
/// one lock and every method below is one critical section.
pub struct Duel {
    pub records: Vec<(u64, DuelRecord)>,
    pub open_duels: Vec<(i64, OneDuel)>,
    pub dices: Vec<i64>,
}

impl View for Duel {
    type V = DuelView;

    open spec fn view(&self) -> DuelView {
        DuelView {
            records: self.records@,
            duels: duel_models(self.open_duels@),
            dices: self.dices@,
        }
    }
}

/// Finds the position of a duel under this key, if any.
fn find_duel(duels: &Vec<(i64, OneDuel)>, key: i64) -> (r: Option<usize>)
    ensures
        match r {
            Some(i) => i < duels@.len() && duels@[i as int].0 == key,
            None => forall|j: int| 0 <= j < duels@.len() ==> (#[trigger] duels@[j]).0 != key,
        },
{
    let mut i: usize = 0;
    while i < duels.len()
        invariant
            i <= duels@.len(),
            forall|j: int| 0 <= j < i ==> (#[trigger] duels@[j]).0 != key,
        decreases duels@.len() - i,
    {
        if duels[i].0 == key {
            return Some(i);
        }
        i = i + 1;
    }
    None
}

/// Finds the position of a player's win/loss record, if any.
fn find_record(records: &Vec<(u64, DuelRecord)>, id: u64) -> (r: Option<usize>)
    ensures
        match r {
            Some(i) => i < records@.len() && records@[i as int].0 == id,
            None => forall|j: int| 0 <= j < records@.len() ==> (#[trigger] records@[j]).0 != id,
        },
{
    let mut i: usize = 0;
    while i < records.len()
        invariant
            i <= records@.len(),
            forall|j: int| 0 <= j < i ==> (#[trigger] records@[j]).0 != id,
        decreases records@.len() - i,
    {
        if records[i].0 == id {
            return Some(i);
        }
        i = i + 1;
    }
    None
}

impl Duel {
    pub open spec fn wf(self) -> bool {
        duel_wf(self@)
    }

    pub fn new() -> (r: Self)
        ensures
            r.wf(),
            r@.records == Seq::<(u64, DuelRecord)>::empty(),
            r@.duels == Seq::<(i64, OneDuelModel)>::empty(),
            r@.dices == Seq::<i64>::empty(),
    {
        let r = Duel { records: Vec::new(), open_duels: Vec::new(), dices: Vec::new() };
        proof {
            assert(r@.duels =~= Seq::<(i64, OneDuelModel)>::empty());
        }
        r
    }

    /// Rebuilds a duel table from a persisted snapshot of win/loss records;
    /// live duels are announcement-scoped and never survive a restart.
    pub fn from_records(records: Vec<(u64, DuelRecord)>) -> (r: Self)
        requires
            keys_unique(records@),
        ensures
            r.wf(),
            r@.records == records@,
            r@.duels == Seq::<(i64, OneDuelModel)>::empty(),
            r@.dices == Seq::<i64>::empty(),
    {
        let r = Duel { records, open_duels: Vec::new(), dices: Vec::new() };
        proof {
            assert(r@.duels =~= Seq::<(i64, OneDuelModel)>::empty());
        }
        r
    }

    /// Decides whether a snapshot is a well-formed keyed mapping (unique
    /// player identifiers).
    pub fn check_records(records: &Vec<(u64, DuelRecord)>) -> (ok: bool)
        ensures
            ok == keys_unique(records@),
    {
        let mut i: usize = 0;
        while i < records.len()
            invariant
                i <= records@.len(),
                forall|p: int, q: int|
                    0 <= p < q < records@.len() && q < i ==> (#[trigger] records@[p]).0 != (
                    #[trigger] records@[q]).0,
            decreases records@.len() - i,
        {
            let mut j: usize = 0;
            while j < i
                invariant
                    j <= i,
                    i < records@.len(),
                    forall|p: int|
                        0 <= p < j ==> (#[trigger] records@[p]).0 != records@[i as int].0,
                decreases i - j,
            {
                if records[j].0 == records[i].0 {
                    return false;
                }
                j = j + 1;
            }
            i = i + 1;
        }
        true
    }

    /// A snapshot of the win/loss records for the persistence collaborator.
    pub fn records_snapshot(&self) -> (r: Vec<(u64, DuelRecord)>)
        ensures
            r@ == self@.records,
    {
        let mut out: Vec<(u64, DuelRecord)> = Vec::new();
        let mut i: usize = 0;
        while i < self.records.len()
            invariant
                i <= self.records@.len(),
                out@ == self.records@.subrange(0, i as int),
            decreases self.records@.len() - i,
        {
            let e = self.records[i];
            out.push(e);
            proof {
                assert(out@ =~= self.records@.subrange(0, i + 1));
            }
            i = i + 1;
        }
        proof {
            assert(out@ =~= self@.records);
        }
        out
    }

    /// Atomically opens (or silently overwrites) the duel under `x`, with a
    /// fresh record for any participant not seen before. Key uniqueness is
    /// the caller's contract: announcement-message identifiers are unique.
    pub fn start_duel(
        &mut self,
        pushkin: u64,
        dantes: u64,
        user1: String,
        user2: String,
        x: i64,
        t: i64,
    )
        requires
            old(self).wf(),
        ensures
            final(self).wf(),
            final(self)@ == start_duel_spec(old(self)@, pushkin, dantes, user1@, user2@, x, t),
    {
        proof {
            lemma_ensure_rec(old(self)@.records, pushkin);
            lemma_ensure_rec(ensure_rec(old(self)@.records, pushkin), dantes);
            lemma_put_duel(
                old(self)@.duels,
                x,
                fresh_duel(pushkin, dantes, user1@, user2@, x, t),
            );
        }
        match find_record(&self.records, pushkin) {
            Some(_) => {},
            None => {
                self.records.push((pushkin, DuelRecord::new()));
            },
        }
        match find_record(&self.records, dantes) {
            Some(i) => {
                proof {
                    assert(self.records@ =~= ensure_rec(
                        ensure_rec(old(self)@.records, pushkin),
                        dantes,
                    ));
                }
            },
            None => {
                self.records.push((dantes, DuelRecord::new()));
                proof {
                    assert(self.records@ =~= ensure_rec(
                        ensure_rec(old(self)@.records, pushkin),
                        dantes,
                    ));
                }
            },
        }
        let od = OneDuel::new(pushkin, dantes, user1, user2, x, t);
        match find_duel(&self.open_duels, x) {
            Some(i) => {
                proof {
                    lemma_idx_of_unique(duel_models(old(self).open_duels@), x, i as int);
                }
                self.open_duels[i] = (x, od);
            },
            None => {
                self.open_duels.push((x, od));
            },
        }
        proof {
            assert(final(self)@.duels =~= start_duel_spec(
                old(self)@,
                pushkin,
                dantes,
                user1@,
                user2@,
                x,
                t,
            ).duels);
            assert(final(self)@ =~= start_duel_spec(
                old(self)@,
                pushkin,
                dantes,
                user1@,
                user2@,
                x,
                t,
            ));
            lemma_start_duel_wf(old(self)@, pushkin, dantes, user1@, user2@, x, t);
        }
    }

    /// Atomically registers a throw. A throw for an unknown duel, from a
    /// non-participant, or into an already-filled slot is a silent no-op that
    /// reports `Pending`. Otherwise the value is recorded; if the other slot
    /// is still empty the duel stays live and `Pending` is reported, and if
    /// both slots are now filled the duel resolves in this same step: the
    /// verdict is computed, a decisive outcome credits the winner's wins and
    /// the loser's losses exactly once, the duel leaves the live set, and the
    /// verdict — with both names and the penalty fixed at announcement time —
    /// is returned so no second lookup is ever needed.
    pub fn shoot(&mut self, x: i64, id: u64, value: i32) -> (r: Shoot)
        requires
            old(self).wf(),
            shoot_allowed(old(self)@, x, id) ==> ({
                let od = val_of(old(self)@.duels, x);
                &&& val_of(old(self)@.records, od.pushkin).win < usize::MAX
                &&& val_of(old(self)@.records, od.pushkin).lose < usize::MAX
                &&& val_of(old(self)@.records, od.dantes).win < usize::MAX
                &&& val_of(old(self)@.records, od.dantes).lose < usize::MAX
            }),
        ensures
            final(self).wf(),
            final(self)@ == shoot_step(old(self)@, x, id, value),
            r@ == shoot_verdict(old(self)@, x, id, value),
    {
        let ghost d0 = old(self)@;
        let pos = match find_duel(&self.open_duels, x) {
            None => {
                proof {
                    if has_key(d0.duels, x) {
                        lemma_idx_of(d0.duels, x);
                    }
                }
                return Shoot::Pending;
            },
            Some(i) => i,
        };
        proof {
            lemma_idx_of_unique(d0.duels, x, pos as int);
        }
        if self.open_duels[pos].1.cannot_shoot(id) {
            return Shoot::Pending;
        }
        let ghost od1 = val_of(d0.duels, x);
        let ghost od2 = set_value_spec(od1, id, value);
        let mut entry = self.open_duels.remove(pos);
        entry.1.set_value(id, value);
        proof {
            assert(entry.1@ == od2);
            lemma_remove_entry(d0.duels, pos as int);
        }
        if entry.1.not_ready() {
            self.open_duels.insert(pos, entry);
            proof {
                assert(final(self)@.duels =~= d0.duels.update(pos as int, (x, od2)));
                assert(final(self)@ =~= shoot_step(d0, x, id, value));
                assert forall|i: int| 0 <= i < final(self)@.duels.len() implies duel_entry_wf(
                    #[trigger] final(self)@.duels[i],
                    final(self)@.records,
                ) by {
                    if i != pos {
                        assert(final(self)@.duels[i] == d0.duels[i]);
                        assert(duel_entry_wf(d0.duels[i], d0.records));
                    } else {
                        assert(duel_entry_wf(d0.duels[pos as int], d0.records));
                    }
                }
            }
            return Shoot::Pending;
        }
        // The duel is ready: resolve it inside this same critical step.
        let res = entry.1.results();
        let p = res.0;
        let q = res.1;
        proof {
            assert(duel_entry_wf(d0.duels[pos as int], d0.records));
            assert(od2.pushkin == od1.pushkin && od2.dantes == od1.dantes);
        }
        if p == q {
            proof {
                assert(final(self)@ =~= shoot_step(d0, x, id, value));
                assert forall|i: int| 0 <= i < final(self)@.duels.len() implies duel_entry_wf(
                    #[trigger] final(self)@.duels[i],
                    final(self)@.records,
                ) by {
                    let i2 = if i < pos {
                        i
                    } else {
                        i + 1
                    };
                    assert(final(self)@.duels[i] == d0.duels[i2]);
                    assert(duel_entry_wf(d0.duels[i2], d0.records));
                }
            }
            return Shoot::Draw;
        }
        let loser: u64;
        let loser_name: String;
        let winner: u64;
        let winner_name: String;
        if p < q {
            loser = entry.1.pushkin;
            loser_name = entry.1.pushkin_name.clone();
            winner = entry.1.dantes;
            winner_name = entry.1.dantes_name.clone();
        } else {
            loser = entry.1.dantes;
            loser_name = entry.1.dantes_name.clone();
            winner = entry.1.pushkin;
            winner_name = entry.1.pushkin_name.clone();
        }
        let penalty = entry.1.time;
        proof {
            assert(has_key(d0.records, winner));
            assert(has_key(d0.records, loser));
        }
        let wi = match find_record(&self.records, winner) {
            Some(j) => j,
            None => {
                proof {
                    lemma_idx_of(d0.records, winner);
                    assert(false);
                }
                0
            },
        };
        proof {
            lemma_idx_of_unique(d0.records, winner, wi as int);
        }
        let wrec = self.records[wi].1;
        self.records[wi] = (winner, DuelRecord { win: wrec.win + 1, lose: wrec.lose });
        let ghost r1 = self.records@;
        proof {
            assert(forall|i: int|
                0 <= i < d0.records.len() ==> (#[trigger] r1[i]).0 == d0.records[i].0);
            lemma_same_keys(d0.records, r1);
        }
        let li = match find_record(&self.records, loser) {
            Some(j) => j,
            None => {
                proof {
                    lemma_idx_of(r1, loser);
                    assert(false);
                }
                0
            },
        };
        proof {
            lemma_idx_of_unique(r1, loser, li as int);
        }
        let lrec = self.records[li].1;
        self.records[li] = (loser, DuelRecord { win: lrec.win, lose: lrec.lose + 1 });
        proof {
            assert(verdict_spec(od2) == (ShootModel::Loser {
                loser,
                loser_name: loser_name@,
                winner,
                winner_name: winner_name@,
                penalty,
            }));
            assert(final(self)@.records =~= credit_spec(d0.records, od2));
            assert(final(self)@ =~= shoot_step(d0, x, id, value));
            lemma_credit_keys(d0.records, od2);
            assert forall|i: int| 0 <= i < final(self)@.duels.len() implies duel_entry_wf(
                #[trigger] final(self)@.duels[i],
                final(self)@.records,
            ) by {
                let i2 = if i < pos {
                    i
                } else {
                    i + 1
                };
                assert(final(self)@.duels[i] == d0.duels[i2]);
                assert(duel_entry_wf(d0.duels[i2], d0.records));
            }
        }
        Shoot::Loser { loser, loser_name, winner, winner_name, penalty }
    }

    /// May `id` still throw in the duel under `x`? False when the duel is
    /// unknown, `id` is not a participant, or `id`'s slot is already filled.
    pub fn can_act(&self, x: i64, id: u64) -> (r: bool)
        requires
            self.wf(),
        ensures
            r == shoot_allowed(self@, x, id),
    {
        match find_duel(&self.open_duels, x) {
            None => {
                proof {
                    if has_key(self@.duels, x) {
                        lemma_idx_of(self@.duels, x);
                    }
                }
                false
            },
            Some(i) => {
                proof {
                    lemma_idx_of_unique(self@.duels, x, i as int);
                }
                !self.open_duels[i].1.cannot_shoot(id)
            },
        }
    }

    /// The opponent's display name for a participant of a live duel, as
    /// snapshotted when the duel was announced.
    pub fn lookup_opponent_name(&self, x: i64, id: u64) -> (r: Option<String>)
        requires
            self.wf(),
        ensures
            match r {
                Some(name) => has_key(self@.duels, x) && is_participant(val_of(self@.duels, x), id)
                    && name@ == opponent_of(val_of(self@.duels, x), id),
                None => !(has_key(self@.duels, x) && is_participant(val_of(self@.duels, x), id)),
            },
    {
        match find_duel(&self.open_duels, x) {
            None => {
                proof {
                    if has_key(self@.duels, x) {
                        lemma_idx_of(self@.duels, x);
                    }
                }
                None
            },
            Some(i) => {
                proof {
                    lemma_idx_of_unique(self@.duels, x, i as int);
                }
                if self.open_duels[i].1.pushkin == id || self.open_duels[i].1.dantes == id {
                    let names = self.open_duels[i].1.opponent_name(id);
                    Some(names.0)
                } else {
                    None
                }
            },
        }
    }

    /// Remembers an auxiliary dice-message identifier for later cleanup.
    pub fn push_dice(&mut self, dice: i64)
        ensures
            final(self)@.dices == old(self)@.dices.push(dice),
            final(self)@.records == old(self)@.records,
            final(self)@.duels == old(self)@.duels,
            old(self).wf() ==> final(self).wf(),
    {
        self.dices.push(dice);
    }

    /// Hands out all remembered dice-message identifiers and forgets them.
    pub fn take_dices(&mut self) -> (r: Vec<i64>)
        ensures
            r@ == old(self)@.dices,
            final(self)@.dices == Seq::<i64>::empty(),
            final(self)@.records == old(self)@.records,
            final(self)@.duels == old(self)@.duels,
            old(self).wf() ==> final(self).wf(),
    {
        let mut out: Vec<i64> = Vec::new();
        core::mem::swap(&mut out, &mut self.dices);
        proof {
            assert(final(self)@.dices =~= Seq::<i64>::empty());
        }
        out
    }

    /// A point-in-time ranking of the win/loss records, sorted by wins, best
    /// first; equal scores keep their insertion order in the table.
    pub fn standings_by_wins(&self) -> (r: Vec<(u64, DuelRecord)>)
        requires
            self.wf(),
        ensures
            r@.to_multiset() == self@.records.to_multiset(),
            sorted_by_wins_desc(r@),
            forall|i: int, j: int|
                0 <= i < j < r@.len() && (#[trigger] r@[i]).1.win == (#[trigger] r@[j]).1.win
                    ==> idx_of(self@.records, r@[i].0) < idx_of(self@.records, r@[j].0),
    {
        let mut pool = self.records_snapshot();
        let ghost pool0 = pool@;
        let mut out: Vec<(u64, DuelRecord)> = Vec::new();
        proof {
            broadcast use vstd::seq_lib::group_to_multiset_ensures;

            assert(out@.to_multiset().add(pool@.to_multiset()) =~= pool0.to_multiset());
            assert forall|a: int| 0 <= a < pool0.len() implies idx_of(pool0, (
            #[trigger] pool0[a]).0) == a by {
                lemma_idx_of_unique(pool0, pool0[a].0, a);
            }
        }
        while pool.len() > 0
            invariant
                out@.to_multiset().add(pool@.to_multiset()) == pool0.to_multiset(),
                sorted_by_wins_desc(out@),
                forall|a: int, b: int|
                    0 <= a < out@.len() && 0 <= b < pool@.len() ==> (#[trigger] out@[a]).1.win >= (
                    #[trigger] pool@[b]).1.win,
                forall|a: int, b: int|
                    0 <= a < b < pool@.len() ==> idx_of(pool0, (#[trigger] pool@[a]).0) < idx_of(
                        pool0,
                        (#[trigger] pool@[b]).0,
                    ),
                forall|a: int, b: int|
                    0 <= a < out@.len() && 0 <= b < pool@.len() && (#[trigger] out@[a]).1.win == (
                    #[trigger] pool@[b]).1.win ==> idx_of(pool0, out@[a].0) < idx_of(
                        pool0,
                        pool@[b].0,
                    ),
                forall|i: int, j: int|
                    0 <= i < j < out@.len() && (#[trigger] out@[i]).1.win == (
                    #[trigger] out@[j]).1.win ==> idx_of(pool0, out@[i].0) < idx_of(
                        pool0,
                        out@[j].0,
                    ),
            decreases pool@.len(),
        {
            let mut m: usize = 0;
            let mut k: usize = 1;
            while k < pool.len()
                invariant
                    m < k <= pool@.len(),
                    pool@.len() > 0,
                    forall|b: int|
                        0 <= b < k ==> pool@[m as int].1.win >= (#[trigger] pool@[b]).1.win,
                    forall|b: int|
                        0 <= b < m ==> (#[trigger] pool@[b]).1.win < pool@[m as int].1.win,
                decreases pool@.len() - k,
            {
                if pool[k].1.win > pool[m].1.win {
                    m = k;
                }
                k = k + 1;
            }
            let ghost pool_pre = pool@;
            let ghost out_pre = out@;
            let e = pool.remove(m);
            out.push(e);
            proof {
                broadcast use vstd::seq_lib::group_to_multiset_ensures;

                assert(pool_pre[m as int] == e);
                assert(out@.to_multiset() == out_pre.to_multiset().insert(e));
                assert(pool@.to_multiset() == pool_pre.to_multiset().remove(e));
                assert(pool_pre.contains(e)) by {
                    assert(pool_pre[m as int] == e);
                }
                assert(pool_pre.to_multiset().count(e) > 0);
                assert(out@.to_multiset().add(pool@.to_multiset()) =~= pool0.to_multiset());
                let n = out_pre.len() as int;
                assert forall|a: int, b: int| 0 <= a <= b < out@.len() implies (
                #[trigger] out@[a]).1.win >= (#[trigger] out@[b]).1.win by {
                    if b < n {
                        assert(out@[a] == out_pre[a]);
                        assert(out@[b] == out_pre[b]);
                    } else if a < n {
                        assert(out@[a] == out_pre[a]);
                        assert(out_pre[a].1.win >= pool_pre[m as int].1.win);
                    }
                }
                assert forall|a: int, b: int|
                    0 <= a < out@.len() && 0 <= b < pool@.len() implies (#[trigger] out@[a]).1.win
                    >= (#[trigger] pool@[b]).1.win by {
                    let bb = if b < m {
                        b
                    } else {
                        b + 1
                    };
                    assert(pool@[b] == pool_pre[bb]);
                    assert(pool_pre[m as int].1.win >= pool_pre[bb].1.win);
                    if a < n {
                        assert(out@[a] == out_pre[a]);
                    }
                }
                assert forall|a: int, b: int| 0 <= a < b < pool@.len() implies idx_of(
                    pool0,
                    (#[trigger] pool@[a]).0,
                ) < idx_of(pool0, (#[trigger] pool@[b]).0) by {
                    let aa = if a < m {
                        a
                    } else {
                        a + 1
                    };
                    let bb = if b < m {
                        b
                    } else {
                        b + 1
                    };
                    assert(pool@[a] == pool_pre[aa]);
                    assert(pool@[b] == pool_pre[bb]);
                }
                assert forall|a: int, b: int|
                    0 <= a < out@.len() && 0 <= b < pool@.len() && (#[trigger] out@[a]).1.win == (
                #[trigger] pool@[b]).1.win implies idx_of(pool0, out@[a].0) < idx_of(
                    pool0,
                    pool@[b].0,
                ) by {
                    let bb = if b < m {
                        b
                    } else {
                        b + 1
                    };
                    assert(pool@[b] == pool_pre[bb]);
                    if a < n {
                        assert(out@[a] == out_pre[a]);
                    } else {
                        assert(out@[a] == pool_pre[m as int]);
                        if bb < m {
                            assert(pool_pre[bb].1.win < pool_pre[m as int].1.win);
                        } else {
                            assert(idx_of(pool0, pool_pre[m as int].0) < idx_of(
                                pool0,
                                pool_pre[bb].0,
                            ));
                        }
                    }
                }
                assert forall|i: int, j: int|
                    0 <= i < j < out@.len() && (#[trigger] out@[i]).1.win == (
                #[trigger] out@[j]).1.win implies idx_of(pool0, out@[i].0) < idx_of(
                    pool0,
                    out@[j].0,
                ) by {
                    if j < n {
                        assert(out@[i] == out_pre[i]);
                        assert(out@[j] == out_pre[j]);
                    } else {
                        assert(out@[j] == pool_pre[m as int]);
                        assert(out@[i] == out_pre[i]);
                        assert(out_pre[i].1.win == pool_pre[m as int].1.win ==> idx_of(
                            pool0,
                            out_pre[i].0,
                        ) < idx_of(pool0, pool_pre[m as int].0));
                    }
                }
            }
        }
        proof {
            broadcast use vstd::seq_lib::group_to_multiset_ensures;

            assert(pool@ =~= Seq::<(u64, DuelRecord)>::empty());
            assert(pool@.to_multiset().len() == 0);
            assert(out@.to_multiset() =~= pool0.to_multiset());
        }
        out
    }
}

/// A throw registration changes anything only when the key names a live duel
/// and `id` is a participant there whose slot is still empty.
pub open spec fn shoot_allowed(d: DuelView, key: i64, id: u64) -> bool {
    has_key(d.duels, key) && can_act_duel(val_of(d.duels, key), id)
}

/// The atomic transition `shoot` performs: a disallowed throw changes
/// nothing; a first throw is recorded in place; the throw that fills the
/// second slot resolves the duel — records credited, duel removed.
pub open spec fn shoot_step(d: DuelView, key: i64, id: u64, value: i32) -> DuelView {
    if !shoot_allowed(d, key, id) {
        d
    } else {
        let od2 = set_value_spec(val_of(d.duels, key), id, value);
        if !duel_ready(od2) {
            DuelView {
                records: d.records,
                duels: d.duels.update(idx_of(d.duels, key), (key, od2)),
                dices: d.dices,
            }
        } else {
            DuelView {
                records: credit_spec(d.records, od2),
                duels: d.duels.remove(idx_of(d.duels, key)),
                dices: d.dices,
            }
        }
    }
}

/// What `shoot` reports: still pending (also for disallowed throws), or the
/// verdict of the resolution this throw completed.
pub open spec fn shoot_verdict(d: DuelView, key: i64, id: u64, value: i32) -> ShootModel {
    if !shoot_allowed(d, key, id) {
        ShootModel::Pending
    } else {
        let od2 = set_value_spec(val_of(d.duels, key), id, value);
        if !duel_ready(od2) {
            ShootModel::Pending
        } else {
            verdict_spec(od2)
        }
    }
}

/// `id` names one of the two participants of this duel.
pub open spec fn is_participant(od: OneDuelModel, id: u64) -> bool {
    id == od.pushkin || id == od.dantes
}

/// The display name of `id`'s opponent; a caller that is not the first
/// participant is taken for the second.
pub open spec fn opponent_of(od: OneDuelModel, id: u64) -> Seq<char> {
    if id == od.pushkin {
        od.dantes_name
    } else {
        od.pushkin_name
    }
}

/// Entries are sorted by lifetime wins, best first.
pub open spec fn sorted_by_wins_desc(s: Seq<(u64, DuelRecord)>) -> bool {
    forall|i: int, j: int|
        0 <= i <= j < s.len() ==> (#[trigger] s[i]).1.win >= (#[trigger] s[j]).1.win
}

/// Two record lists with pointwise equal keys agree on key membership and
/// key uniqueness.
pub proof fn lemma_same_keys(r1: Seq<(u64, DuelRecord)>, r2: Seq<(u64, DuelRecord)>)
    requires
        r1.len() == r2.len(),
        forall|i: int| 0 <= i < r1.len() ==> (#[trigger] r1[i]).0 == (#[trigger] r2[i]).0,
    ensures
        forall|k: u64| #[trigger] has_key(r1, k) <==> #[trigger] has_key(r2, k),
        keys_unique(r1) <==> keys_unique(r2),
{
    assert forall|k: u64| #[trigger] has_key(r1, k) <==> #[trigger] has_key(r2, k) by {
        if has_key(r1, k) {
            lemma_idx_of(r1, k);
            let i = idx_of(r1, k);
            assert(r2[i].0 == k);
        }
        if has_key(r2, k) {
            lemma_idx_of(r2, k);
            let i = idx_of(r2, k);
            assert(r1[i].0 == k);
        }
    }
    assert(keys_unique(r1) <==> keys_unique(r2)) by {
        if keys_unique(r1) {
            assert forall|a: int, b: int| 0 <= a < b < r2.len() implies (#[trigger] r2[a]).0 != (
            #[trigger] r2[b]).0 by {
                assert(r1[a].0 != r1[b].0);
            }
        }
        if keys_unique(r2) {
            assert forall|a: int, b: int| 0 <= a < b < r1.len() implies (#[trigger] r1[a]).0 != (
            #[trigger] r1[b]).0 by {
                assert(r2[a].0 != r2[b].0);
            }
        }
    }
}

/// Crediting a resolved duel leaves the record keys exactly as they were.
pub proof fn lemma_credit_keys(records: Seq<(u64, DuelRecord)>, od: OneDuelModel)
    requires
        keys_unique(records),
        has_key(records, od.pushkin),
        has_key(records, od.dantes),
    ensures
        credit_spec(records, od).len() == records.len(),
        forall|i: int|
            0 <= i < records.len() ==> (#[trigger] credit_spec(records, od)[i]).0 == records[i].0,
        keys_unique(credit_spec(records, od)),
        forall|k: u64| #[trigger] has_key(credit_spec(records, od), k) <==> has_key(records, k),
{
    let w = credit_spec(records, od);
    match verdict_spec(od) {
        ShootModel::Loser { loser, winner, .. } => {
            lemma_idx_of(records, winner);
            let wi = idx_of(records, winner);
            let r1 = records.update(
                wi,
                (
                    winner,
                    DuelRecord {
                        win: (val_of(records, winner).win + 1) as usize,
                        lose: val_of(records, winner).lose,
                    },
                ),
            );
            assert(forall|i: int| 0 <= i < records.len() ==> (#[trigger] r1[i]).0 == records[i].0);
            lemma_same_keys(records, r1);
            lemma_idx_of(r1, loser);
            assert(forall|i: int| 0 <= i < r1.len() ==> (#[trigger] w[i]).0 == r1[i].0);
            lemma_same_keys(r1, w);
        },
        _ => {},
    }
    lemma_same_keys(records, w);
}

/// Law: the two participants' throws into one fresh duel commute. In
/// whichever order the two registrations interleave, the first reports
/// "pending", the second — and only the second — resolves the duel, both
/// orders produce the same verdict and the same final table, and the duel
/// leaves the live set, so it can never resolve twice or lose an update.
pub proof fn lemma_register_throw_commutes(
    d: DuelView,
    key: i64,
    a: u64,
    va: i32,
    b: u64,
    vb: i32,
)
    requires
        duel_wf(d),
        has_key(d.duels, key),
        val_of(d.duels, key).pushkin == a,
        val_of(d.duels, key).dantes == b,
        a != b,
        val_of(d.duels, key).pushkin_throw is None,
        val_of(d.duels, key).dantes_throw is None,
    ensures
        shoot_verdict(d, key, a, va) is Pending,
        shoot_verdict(d, key, b, vb) is Pending,
        !(shoot_verdict(shoot_step(d, key, a, va), key, b, vb) is Pending),
        !(shoot_verdict(shoot_step(d, key, b, vb), key, a, va) is Pending),
        shoot_verdict(shoot_step(d, key, a, va), key, b, vb) == shoot_verdict(
            shoot_step(d, key, b, vb),
            key,
            a,
            va,
        ),
        shoot_step(shoot_step(d, key, a, va), key, b, vb) == shoot_step(
            shoot_step(d, key, b, vb),
            key,
            a,
            va,
        ),
        !has_key(shoot_step(shoot_step(d, key, a, va), key, b, vb).duels, key),
{
    lemma_idx_of(d.duels, key);
    let i = idx_of(d.duels, key);
    let od = val_of(d.duels, key);
    let od_a = set_value_spec(od, a, va);
    let od_b = set_value_spec(od, b, vb);
    let od_ab = set_value_spec(od_a, b, vb);
    let od_ba = set_value_spec(od_b, a, va);
    assert(!duel_ready(od_a));
    assert(!duel_ready(od_b));
    assert(od_ab =~= od_ba);
    lemma_put_duel(d.duels, key, od_a);
    lemma_put_duel(d.duels, key, od_b);
    let d1 = shoot_step(d, key, a, va);
    let e1 = shoot_step(d, key, b, vb);
    assert(d1.duels == put_duel(d.duels, key, od_a));
    assert(e1.duels == put_duel(d.duels, key, od_b));
    lemma_idx_of_unique(d1.duels, key, i);
    lemma_idx_of_unique(e1.duels, key, i);
    assert(duel_ready(od_ab));
    let d2 = shoot_step(d1, key, b, vb);
    let e2 = shoot_step(e1, key, a, va);
    assert(d2.records == credit_spec(d.records, od_ab));
    assert(e2.records == credit_spec(d.records, od_ba));
    assert(d2.duels =~= d.duels.remove(i));
    assert(e2.duels =~= d.duels.remove(i));
    assert(d2 =~= e2);
    lemma_remove_entry(d1.duels, i);
    assert(!has_key(d2.duels, key));
}

/// Opening a duel preserves the table's well-formedness.
pub proof fn lemma_start_duel_wf(
    d: DuelView,
    pushkin: u64,
    dantes: u64,
    user1: Seq<char>,
    user2: Seq<char>,
    x: i64,
    t: i64,
)
    requires
        duel_wf(d),
    ensures
        duel_wf(start_duel_spec(d, pushkin, dantes, user1, user2, x, t)),
{
    let w = start_duel_spec(d, pushkin, dantes, user1, user2, x, t);
    lemma_ensure_rec(d.records, pushkin);
    lemma_ensure_rec(ensure_rec(d.records, pushkin), dantes);
    lemma_put_duel(d.duels, x, fresh_duel(pushkin, dantes, user1, user2, x, t));
    let od = fresh_duel(pushkin, dantes, user1, user2, x, t);
    assert forall|i: int| 0 <= i < w.duels.len() implies duel_entry_wf(
        #[trigger] w.duels[i],
        w.records,
    ) by {
        if has_key(d.duels, x) {
            let j = idx_of(d.duels, x);
            lemma_idx_of(d.duels, x);
            if i != j {
                assert(w.duels[i] == d.duels[i]);
                assert(duel_entry_wf(d.duels[i], d.records));
            } else {
                assert(w.duels[i] == (x, od));
            }
        } else {
            if i < d.duels.len() {
                assert(w.duels[i] == d.duels[i]);
                assert(duel_entry_wf(d.duels[i], d.records));
            } else {
                assert(w.duels[i] == (x, od));
            }
        }
    }
}

} // verus!
