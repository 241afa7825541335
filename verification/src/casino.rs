//! The slot-machine ledger: one record per player, a bounded daily spin
//! allowance, and a fixed outcome table mapping symbols to points.
//!
//! Every mutating operation is a single atomic step on the `Ledger` value, so
//! the check "may this player spin?" and the update that spends the spin can
//! never be separated by a concurrent caller.

use vstd::prelude::*;

use crate::kv::{has_key, idx_of, keys_unique, lemma_idx_of, lemma_idx_of_unique, val_of};

verus! {

/// Number of spins a player may take between two refreshes.
pub const DAILY_CAP: usize = 3;

pub open spec fn min_int(a: int, b: int) -> int {
    if a <= b {
        a
    } else {
        b
    }
}

/// A slot-machine symbol, decoded from the opaque dice value that the chat
/// transport reports for a slot-machine roll.
#[derive(Clone, Copy, Debug, PartialEq, Eq, Structural)]
pub enum SlotResult {
    Bars,
    Grapes,
    Lemons,
    Sevens,
    Nothing,
}

impl SlotResult {
    /// The outcome table: points awarded for each symbol. Unrecognized rolls
    /// (`Nothing`) are worth zero points, never an error.
    pub open spec fn point_value_spec(self) -> usize {
        match self {
            SlotResult::Bars => 1,
            SlotResult::Grapes => 2,
            SlotResult::Lemons => 3,
            SlotResult::Sevens => 5,
            SlotResult::Nothing => 0,
        }
    }

    pub fn point_value(self) -> (r: usize)
        ensures
            r == self.point_value_spec(),
    {
        match self {
            SlotResult::Bars => 1,
            SlotResult::Grapes => 2,
            SlotResult::Lemons => 3,
            SlotResult::Sevens => 5,
            SlotResult::Nothing => 0,
        }
    }

    /// The outcome table: the display text for each symbol (a winless roll
    /// shows nothing). Rendering full chat messages is the display
    /// collaborator's job; this is only the table's text column.
    pub open spec fn label_spec(self) -> Seq<char> {
        match self {
            SlotResult::Bars => "бабки"@,
            SlotResult::Grapes => "бабулесы"@,
            SlotResult::Lemons => "бабло"@,
            SlotResult::Sevens => "деньги"@,
            SlotResult::Nothing => ""@,
        }
    }

    pub fn label(self) -> (r: &'static str)
        ensures
            r@ == self.label_spec(),
    {
        match self {
            SlotResult::Bars => "бабки",
            SlotResult::Grapes => "бабулесы",
            SlotResult::Lemons => "бабло",
            SlotResult::Sevens => "деньги",
            SlotResult::Nothing => "",
        }
    }
}

/// Decodes the transport's dice value for a slot-machine roll; every value
/// outside the known set is `Nothing`.
impl From<i32> for SlotResult {
    fn from(num: i32) -> (r: SlotResult) {
        match num {
            1 => SlotResult::Bars,
            22 => SlotResult::Grapes,
            43 => SlotResult::Lemons,
            64 => SlotResult::Sevens,
            _ => SlotResult::Nothing,
        }
    }
}

impl vstd::std_specs::convert::FromSpecImpl<i32> for SlotResult {
    open spec fn obeys_from_spec() -> bool {
        true
    }

    open spec fn from_spec(num: i32) -> SlotResult {
        match num {
            1 => SlotResult::Bars,
            22 => SlotResult::Grapes,
            43 => SlotResult::Lemons,
            64 => SlotResult::Sevens,
            _ => SlotResult::Nothing,
        }
    }
}

/// One player's casino progress.
#[derive(Clone, Debug, PartialEq, Eq)]
pub struct Record {
    pub user_name: String,
    pub points: usize,
    pub tries: usize,
    pub tries_left: usize,
}

/// The mathematical shadow of a `Record`: unbounded integers and a character
/// sequence for the display name.
#[verifier::ext_equal]
pub ghost struct RecordModel {
    pub user_name: Seq<char>,
    pub points: int,
    pub tries: int,
    pub tries_left: int,
}

impl View for Record {
    type V = RecordModel;

    open spec fn view(&self) -> RecordModel {
        RecordModel {
            user_name: self.user_name@,
            points: self.points as int,
            tries: self.tries as int,
            tries_left: self.tries_left as int,
        }
    }
}

/// A record as it is first created: no points, no spins, a full allowance.
pub open spec fn fresh_rec(name: Seq<char>) -> RecordModel {
    RecordModel { user_name: name, points: 0, tries: 0, tries_left: DAILY_CAP as int }
}

/// One granted spin: the display name is refreshed to its last-seen value,
/// a spin is spent, the spin total grows and the outcome's points are credited.
pub open spec fn spin_rec(r: RecordModel, name: Seq<char>, value: int) -> RecordModel {
    RecordModel {
        user_name: name,
        points: r.points + value,
        tries: r.tries + 1,
        tries_left: r.tries_left - 1,
    }
}

impl Record {
    pub fn new(name: String) -> (r: Self)
        ensures
            r@ == fresh_rec(name@),
    {
        Self { user_name: name, points: 0, tries: 0, tries_left: DAILY_CAP }
    }

    /// Applies one granted spin outcome to this record. The caller (the
    /// ledger) has already decided the spin is allowed.
    pub fn spin(&mut self, outcome: SlotResult)
        requires
            old(self).tries_left >= 1,
            old(self).points + outcome.point_value_spec() <= usize::MAX,
            old(self).tries < usize::MAX,
        ensures
            final(self)@ == spin_rec(old(self)@, old(self).user_name@, outcome.point_value_spec() as int),
    {
        self.tries = self.tries + 1;
        self.tries_left = self.tries_left - 1;
        self.points = self.points + outcome.point_value();
    }
}

/// A record is well formed when its allowance is within the daily cap.
pub open spec fn rec_wf(r: RecordModel) -> bool {
    &&& 0 <= r.tries_left <= DAILY_CAP
    &&& 0 <= r.points
    &&& 0 <= r.tries
}

/// The ledger's mathematical model: the player records in insertion order.
pub open spec fn ledger_wf(v: Seq<(u64, RecordModel)>) -> bool {
    &&& keys_unique(v)
    &&& forall|i: int| 0 <= i < v.len() ==> rec_wf((#[trigger] v[i]).1)
}

/// Maps a concrete entry list to its mathematical model.
pub open spec fn models(s: Seq<(u64, Record)>) -> Seq<(u64, RecordModel)> {
    s.map_values(|p: (u64, Record)| (p.0, p.1@))
}

/// A spin is denied exactly when the player exists and has no spins left;
/// a player never seen before gets a fresh record (with a full allowance).
pub open spec fn spin_denied(v: Seq<(u64, RecordModel)>, id: u64) -> bool {
    has_key(v, id) && val_of(v, id).tries_left == 0
}

/// The atomic transition `try_spin` performs on the ledger model.
pub open spec fn spin_step(
    v: Seq<(u64, RecordModel)>,
    id: u64,
    name: Seq<char>,
    value: int,
) -> Seq<(u64, RecordModel)> {
    if !has_key(v, id) {
        v.push((id, spin_rec(fresh_rec(name), name, value)))
    } else if spin_denied(v, id) {
        v
    } else {
        v.update(idx_of(v, id), (id, spin_rec(val_of(v, id), name, value)))
    }
}

/// What a spin attempt reports back: the post-update snapshot, or a denial
/// (a business-rule refusal, not a fault).
#[derive(Clone, Copy, Debug, PartialEq, Eq, Structural)]
pub enum SpinOutcome {
    Granted { points: usize, tries: usize },
    Denied,
}

/// The store of all player records, owned exclusively; a caller shares it
/// behind one lock and every method below is one critical section.
pub struct Ledger {
    pub entries: Vec<(u64, Record)>,
}

impl View for Ledger {
    type V = Seq<(u64, RecordModel)>;

    open spec fn view(&self) -> Seq<(u64, RecordModel)> {
        models(self.entries@)
    }
}

/// Finds the position of a player's entry, if any.
fn find_entry(entries: &Vec<(u64, Record)>, id: u64) -> (r: Option<usize>)
    ensures
        match r {
            Some(i) => i < entries@.len() && entries@[i as int].0 == id,
            None => forall|j: int| 0 <= j < entries@.len() ==> (#[trigger] entries@[j]).0 != id,
        },
{
    let mut i: usize = 0;
    while i < entries.len()
        invariant
            i <= entries@.len(),
            forall|j: int| 0 <= j < i ==> (#[trigger] entries@[j]).0 != id,
        decreases entries@.len() - i,
    {
        if entries[i].0 == id {
            return Some(i);
        }
        i = i + 1;
    }
    None
}

impl Ledger {
    pub open spec fn wf(self) -> bool {
        ledger_wf(self@)
    }

    pub fn new() -> (r: Self)
        ensures
            r.wf(),
            r@ == Seq::<(u64, RecordModel)>::empty(),
    {
        let r = Ledger { entries: Vec::new() };
        proof {
            assert(r@ =~= Seq::<(u64, RecordModel)>::empty());
        }
        r
    }

    /// Atomically: deny the spin if the player exists with an empty allowance;
    /// otherwise create the record if needed, spend one spin, credit the
    /// outcome's points, refresh the display name, and report the post-update
    /// points and spin total.
    pub fn try_spin(&mut self, id: u64, name: String, outcome: SlotResult) -> (r: SpinOutcome)
        requires
            old(self).wf(),
            has_key(old(self)@, id) ==> val_of(old(self)@, id).points
                + outcome.point_value_spec() <= usize::MAX && val_of(old(self)@, id).tries
                < usize::MAX,
        ensures
            final(self).wf(),
            final(self)@ == spin_step(old(self)@, id, name@, outcome.point_value_spec() as int),
            spin_denied(old(self)@, id) ==> r == SpinOutcome::Denied && final(self)@ == old(
                self,
            )@,
            !spin_denied(old(self)@, id) ==> (r matches SpinOutcome::Granted { points, tries }
                && has_key(final(self)@, id) && points == val_of(final(self)@, id).points
                && tries == val_of(final(self)@, id).tries),
    {
        proof {
            lemma_spin_step_effect(old(self)@, id, name@, outcome.point_value_spec() as int);
        }
        let pos = find_entry(&self.entries, id);
        match pos {
            None => {
                proof {
                    assert(!has_key(old(self)@, id)) by {
                        assert(forall|j: int|
                            0 <= j < old(self)@.len() ==> (#[trigger] old(self)@[j]).0 == old(
                                self,
                            ).entries@[j].0);
                    }
                }
                let mut rec = Record::new(name);
                rec.spin(outcome);
                let points = rec.points;
                let tries = rec.tries;
                self.entries.push((id, rec));
                proof {
                    assert(final(self)@ =~= spin_step(
                        old(self)@,
                        id,
                        name@,
                        outcome.point_value_spec() as int,
                    ));
                    lemma_idx_of_unique(final(self)@, id, old(self)@.len() as int);
                }
                SpinOutcome::Granted { points, tries }
            },
            Some(i) => {
                proof {
                    assert(old(self)@[i as int].0 == id);
                    lemma_idx_of_unique(old(self)@, id, i as int);
                    assert(val_of(old(self)@, id) == old(self).entries@[i as int].1@);
                }
                if self.entries[i].1.tries_left == 0 {
                    SpinOutcome::Denied
                } else {
                    let value = outcome.point_value();
                    let new_rec = Record {
                        user_name: name,
                        points: self.entries[i].1.points + value,
                        tries: self.entries[i].1.tries + 1,
                        tries_left: self.entries[i].1.tries_left - 1,
                    };
                    let points = new_rec.points;
                    let tries = new_rec.tries;
                    self.entries[i] = (id, new_rec);
                    proof {
                        assert(final(self)@ =~= spin_step(
                            old(self)@,
                            id,
                            name@,
                            outcome.point_value_spec() as int,
                        ));
                        lemma_idx_of_unique(final(self)@, id, i as int);
                    }
                    SpinOutcome::Granted { points, tries }
                }
            },
        }
    }
}

/// How one spin attempt changes the ledger model: the player's record moves
/// as `spin_rec` says, every other record stays, and well-formedness is kept.
pub proof fn lemma_spin_step_effect(v: Seq<(u64, RecordModel)>, id: u64, name: Seq<char>, value: int)
    requires
        ledger_wf(v),
        value >= 0,
    ensures
        ledger_wf(spin_step(v, id, name, value)),
        has_key(spin_step(v, id, name, value), id),
        spin_denied(v, id) ==> spin_step(v, id, name, value) == v,
        !spin_denied(v, id) ==> val_of(spin_step(v, id, name, value), id) == spin_rec(
            if has_key(v, id) {
                val_of(v, id)
            } else {
                fresh_rec(name)
            },
            name,
            value,
        ),
        forall|k: u64|
            k != id ==> ((has_key(spin_step(v, id, name, value), k) <==> has_key(v, k)) && (
            has_key(v, k) ==> val_of(spin_step(v, id, name, value), k) == val_of(v, k))),
        allowance(spin_step(v, id, name, value), id) == if spin_denied(v, id) {
            0
        } else {
            allowance(v, id) - 1
        },
        tries_of(spin_step(v, id, name, value), id) == if spin_denied(v, id) {
            tries_of(v, id)
        } else {
            tries_of(v, id) + 1
        },
{
    let w = spin_step(v, id, name, value);
    if !has_key(v, id) {
        let n = v.len() as int;
        assert(w[n].0 == id);
        assert(keys_unique(w)) by {
            assert(forall|i: int, j: int|
                0 <= i < j < w.len() && j < n ==> (#[trigger] w[i]).0 != (#[trigger] w[j]).0);
            assert(forall|i: int| 0 <= i < n ==> (#[trigger] w[i]).0 != id);
        }
        lemma_idx_of_unique(w, id, n);
        assert(forall|i: int| 0 <= i < w.len() ==> rec_wf((#[trigger] w[i]).1));
        assert forall|k: u64| k != id && has_key(w, k) implies has_key(v, k) by {
            lemma_idx_of(w, k);
            let i = idx_of(w, k);
            assert(i < n);
            assert(v[i].0 == k);
        }
        assert forall|k: u64| k != id && has_key(v, k) implies has_key(w, k) && val_of(w, k)
            == val_of(v, k) by {
            lemma_idx_of(v, k);
            let i = idx_of(v, k);
            assert(w[i].0 == k);
            lemma_idx_of_unique(w, k, i);
        }
    } else if spin_denied(v, id) {
        lemma_idx_of(v, id);
    } else {
        lemma_idx_of(v, id);
        let i = idx_of(v, id);
        assert(keys_unique(w));
        lemma_idx_of_unique(w, id, i);
        assert(rec_wf(val_of(v, id)));
        assert(forall|j: int| 0 <= j < w.len() ==> rec_wf((#[trigger] w[j]).1));
        assert forall|k: u64| k != id implies ((has_key(w, k) <==> has_key(v, k)) && (has_key(
            v,
            k,
        ) ==> val_of(w, k) == val_of(v, k))) by {
            if has_key(v, k) {
                lemma_idx_of(v, k);
                let j = idx_of(v, k);
                assert(j != i);
                assert(w[j].0 == k);
                lemma_idx_of_unique(w, k, j);
            }
            if has_key(w, k) {
                lemma_idx_of(w, k);
                let j = idx_of(w, k);
                assert(j != i);
                assert(v[j].0 == k);
                lemma_idx_of_unique(v, k, j);
            }
        }
    }
}

/// The spins a player may still take: the record's remaining allowance, or a
/// full allowance for a player not seen yet (whose record would be fresh).
pub open spec fn allowance(v: Seq<(u64, RecordModel)>, id: u64) -> int {
    if has_key(v, id) {
        val_of(v, id).tries_left
    } else {
        DAILY_CAP as int
    }
}

/// The player's lifetime spin total (zero for a player not seen yet).
pub open spec fn tries_of(v: Seq<(u64, RecordModel)>, id: u64) -> int {
    if has_key(v, id) {
        val_of(v, id).tries
    } else {
        0
    }
}

/// The ledger after a sequence of spin attempts by one player, each carrying
/// the display name seen and the point value rolled.
pub open spec fn spin_fold(
    v: Seq<(u64, RecordModel)>,
    id: u64,
    inputs: Seq<(Seq<char>, int)>,
) -> Seq<(u64, RecordModel)>
    decreases inputs.len(),
{
    if inputs.len() == 0 {
        v
    } else {
        spin_fold(spin_step(v, id, inputs[0].0, inputs[0].1), id, inputs.drop_first())
    }
}

/// How many attempts of the sequence are granted (not denied).
pub open spec fn spins_granted(
    v: Seq<(u64, RecordModel)>,
    id: u64,
    inputs: Seq<(Seq<char>, int)>,
) -> int
    decreases inputs.len(),
{
    if inputs.len() == 0 {
        0
    } else {
        (if spin_denied(v, id) {
            0int
        } else {
            1int
        }) + spins_granted(spin_step(v, id, inputs[0].0, inputs[0].1), id, inputs.drop_first())
    }
}

/// Any burst of spin attempts by one player grants exactly as many spins as
/// the allowance covers, and the spin total grows by exactly that number.
pub proof fn lemma_spin_fold_counts(
    v: Seq<(u64, RecordModel)>,
    id: u64,
    inputs: Seq<(Seq<char>, int)>,
)
    requires
        ledger_wf(v),
        forall|i: int| 0 <= i < inputs.len() ==> (#[trigger] inputs[i]).1 >= 0,
    ensures
        ledger_wf(spin_fold(v, id, inputs)),
        spins_granted(v, id, inputs) == min_int(inputs.len() as int, allowance(v, id)),
        tries_of(spin_fold(v, id, inputs), id) == tries_of(v, id) + spins_granted(v, id, inputs),
    decreases inputs.len(),
{
    if has_key(v, id) {
        lemma_idx_of(v, id);
    }
    if inputs.len() > 0 {
        lemma_spin_step_effect(v, id, inputs[0].0, inputs[0].1);
        let w = spin_step(v, id, inputs[0].0, inputs[0].1);
        assert(forall|i: int|
            0 <= i < inputs.drop_first().len() ==> (#[trigger] inputs.drop_first()[i]).1 >= 0);
        lemma_spin_fold_counts(w, id, inputs.drop_first());
        if has_key(w, id) {
            lemma_idx_of(w, id);
        }
    }
}

/// Law: among any burst of spin attempts by one player whose allowance is
/// full, exactly `min(n, DAILY_CAP)` spins are granted, and the player's spin
/// total grows by exactly that number — however the attempts interleave with
/// other players' operations, since those leave this player's record alone.
pub proof fn lemma_spin_burst(v: Seq<(u64, RecordModel)>, id: u64, inputs: Seq<(Seq<char>, int)>)
    requires
        ledger_wf(v),
        allowance(v, id) == DAILY_CAP as int,
        forall|i: int| 0 <= i < inputs.len() ==> (#[trigger] inputs[i]).1 >= 0,
    ensures
        spins_granted(v, id, inputs) == min_int(inputs.len() as int, DAILY_CAP as int),
        tries_of(spin_fold(v, id, inputs), id) == tries_of(v, id) + min_int(
            inputs.len() as int,
            DAILY_CAP as int,
        ),
{
    lemma_spin_fold_counts(v, id, inputs);
}

/// The transition `refresh_tries` performs: every record's allowance returns
/// to the daily cap; names, points and spin totals stay.
pub open spec fn refresh_spec(v: Seq<(u64, RecordModel)>) -> Seq<(u64, RecordModel)> {
    v.map_values(
        |p: (u64, RecordModel)|
            (
                p.0,
                RecordModel {
                    user_name: p.1.user_name,
                    points: p.1.points,
                    tries: p.1.tries,
                    tries_left: DAILY_CAP as int,
                },
            ),
    )
}

/// Law: refreshing is idempotent — a second refresh changes nothing — and a
/// refresh never touches names, points or spin totals.
pub proof fn lemma_refresh_idempotent(v: Seq<(u64, RecordModel)>)
    ensures
        refresh_spec(refresh_spec(v)) == refresh_spec(v),
        refresh_spec(v).len() == v.len(),
        forall|i: int|
            0 <= i < v.len() ==> (#[trigger] refresh_spec(v)[i]).0 == v[i].0 && refresh_spec(
                v,
            )[i].1.points == v[i].1.points && refresh_spec(v)[i].1.tries == v[i].1.tries
                && refresh_spec(v)[i].1.user_name == v[i].1.user_name && refresh_spec(
                v,
            )[i].1.tries_left == DAILY_CAP,
{
    assert(refresh_spec(refresh_spec(v)) =~~= refresh_spec(v));
}

/// Well-formedness survives a refresh.
pub proof fn lemma_refresh_wf(v: Seq<(u64, RecordModel)>)
    requires
        ledger_wf(v),
    ensures
        ledger_wf(refresh_spec(v)),
{
    assert(forall|i: int, j: int|
        0 <= i < j < refresh_spec(v).len() ==> (#[trigger] refresh_spec(v)[i]).0 != (
        #[trigger] refresh_spec(v)[j]).0) by {
        assert(forall|i: int|
            0 <= i < v.len() ==> (#[trigger] refresh_spec(v)[i]).0 == v[i].0);
    }
}

/// Entries are sorted by points, best first.
pub open spec fn sorted_by_points_desc(s: Seq<(u64, RecordModel)>) -> bool {
    forall|i: int, j: int|
        0 <= i <= j < s.len() ==> (#[trigger] s[i]).1.points >= (#[trigger] s[j]).1.points
}

impl Ledger {
    /// Resets every existing record's allowance to the daily cap, atomically;
    /// points, spin totals and names are untouched (see
    /// `lemma_refresh_idempotent` for the laws this transition obeys).
    pub fn refresh_tries(&mut self)
        requires
            old(self).wf(),
        ensures
            final(self).wf(),
            final(self)@ == refresh_spec(old(self)@),
    {
        let ghost orig = self.entries@;
        let mut i: usize = 0;
        while i < self.entries.len()
            invariant
                i <= self.entries@.len(),
                self.entries@.len() == orig.len(),
                forall|j: int| 0 <= j < i ==> models(self.entries@)[j] == refresh_spec(models(orig))[j],
                forall|j: int| i <= j < orig.len() ==> self.entries@[j] == orig[j],
            decreases self.entries@.len() - i,
        {
            let name = self.entries[i].1.user_name.clone();
            let key = self.entries[i].0;
            let rec = Record {
                user_name: name,
                points: self.entries[i].1.points,
                tries: self.entries[i].1.tries,
                tries_left: DAILY_CAP,
            };
            self.entries[i] = (key, rec);
            i = i + 1;
        }
        proof {
            assert(final(self)@ =~~= refresh_spec(old(self)@));
            lemma_refresh_wf(old(self)@);
        }
    }

    /// A full, consistent snapshot of the ledger, for the persistence
    /// collaborator: the entries in insertion order, unsorted.
    pub fn snapshot(&self) -> (r: Vec<(u64, Record)>)
        ensures
            models(r@) == self@,
    {
        let mut out: Vec<(u64, Record)> = Vec::new();
        let mut i: usize = 0;
        while i < self.entries.len()
            invariant
                i <= self.entries@.len(),
                out@.len() == i,
                forall|j: int|
                    0 <= j < i ==> (#[trigger] out@[j]).0 == self.entries@[j].0 && out@[j].1@
                        == self.entries@[j].1@,
            decreases self.entries@.len() - i,
        {
            let name = self.entries[i].1.user_name.clone();
            let key = self.entries[i].0;
            let rec = Record {
                user_name: name,
                points: self.entries[i].1.points,
                tries: self.entries[i].1.tries,
                tries_left: self.entries[i].1.tries_left,
            };
            out.push((key, rec));
            i = i + 1;
        }
        proof {
            assert(models(out@) =~~= self@);
        }
        out
    }

    /// Rebuilds a ledger from a persisted snapshot. The snapshot must be a
    /// well-formed keyed mapping; `check_entries` decides that executably.
    pub fn from_entries(entries: Vec<(u64, Record)>) -> (r: Self)
        requires
            ledger_wf(models(entries@)),
        ensures
            r.wf(),
            r@ == models(entries@),
    {
        Ledger { entries }
    }

    /// Decides whether a snapshot is a well-formed keyed mapping: unique
    /// player identifiers and no allowance above the daily cap.
    pub fn check_entries(entries: &Vec<(u64, Record)>) -> (ok: bool)
        ensures
            ok == ledger_wf(models(entries@)),
    {
        let mut i: usize = 0;
        while i < entries.len()
            invariant
                i <= entries@.len(),
                forall|p: int, q: int|
                    0 <= p < q < entries@.len() && q < i ==> (#[trigger] entries@[p]).0 != (
                    #[trigger] entries@[q]).0,
                forall|p: int|
                    0 <= p < i ==> rec_wf(models(entries@)[p].1),
            decreases entries@.len() - i,
        {
            if entries[i].1.tries_left > DAILY_CAP {
                assert(!rec_wf(models(entries@)[i as int].1));
                return false;
            }
            let mut j: usize = 0;
            while j < i
                invariant
                    j <= i,
                    i < entries@.len(),
                    forall|p: int| 0 <= p < j ==> (#[trigger] entries@[p]).0 != entries@[i as int].0,
                decreases i - j,
            {
                if entries[j].0 == entries[i].0 {
                    assert(!keys_unique(models(entries@))) by {
                        assert(models(entries@)[j as int].0 == models(entries@)[i as int].0);
                    }
                    return false;
                }
                j = j + 1;
            }
            i = i + 1;
        }
        proof {
            assert(keys_unique(models(entries@))) by {
                assert(forall|p: int, q: int|
                    0 <= p < q < entries@.len() ==> (#[trigger] models(entries@)[p]).0 == entries@[p].0
                        && (#[trigger] models(entries@)[q]).0 == entries@[q].0);
            }
        }
        true
    }

    /// A point-in-time ranking: a snapshot of all entries, sorted by points,
    /// best first; equal scores keep their insertion order in the ledger. It
    /// can never observe a partially applied spin, since every mutation is
    /// one atomic step.
    pub fn standings(&self) -> (r: Vec<(u64, Record)>)
        requires
            self.wf(),
        ensures
            models(r@).to_multiset() == self@.to_multiset(),
            sorted_by_points_desc(models(r@)),
            forall|i: int, j: int|
                0 <= i < j < r@.len() && (#[trigger] models(r@)[i]).1.points == (#[trigger] models(
                    r@,
                )[j]).1.points ==> idx_of(self@, models(r@)[i].0) < idx_of(self@, models(r@)[j].0),
    {
        broadcast use vstd::seq_lib::group_to_multiset_ensures;

        let mut pool = self.snapshot();
        let ghost pool0 = models(pool@);
        let mut out: Vec<(u64, Record)> = Vec::new();
        proof {
            assert(models(out@).to_multiset().add(models(pool@).to_multiset()) =~= pool0.to_multiset()) by {
                assert(models(out@) =~= Seq::<(u64, RecordModel)>::empty());
                assert(models(out@).to_multiset().len() == 0);
            }
            assert forall|a: int| 0 <= a < pool0.len() implies idx_of(pool0, (
            #[trigger] pool0[a]).0) == a by {
                lemma_idx_of_unique(pool0, pool0[a].0, a);
            }
        }
        while pool.len() > 0
            invariant
                models(out@).to_multiset().add(models(pool@).to_multiset()) == pool0.to_multiset(),
                sorted_by_points_desc(models(out@)),
                forall|a: int, b: int|
                    0 <= a < out@.len() && 0 <= b < pool@.len() ==> (#[trigger] models(out@)[a]).1.points
                        >= (#[trigger] models(pool@)[b]).1.points,
                forall|a: int, b: int|
                    0 <= a < b < pool@.len() ==> idx_of(pool0, (#[trigger] models(pool@)[a]).0)
                        < idx_of(pool0, (#[trigger] models(pool@)[b]).0),
                forall|a: int, b: int|
                    0 <= a < out@.len() && 0 <= b < pool@.len() && (#[trigger] models(
                        out@,
                    )[a]).1.points == (#[trigger] models(pool@)[b]).1.points ==> idx_of(
                        pool0,
                        models(out@)[a].0,
                    ) < idx_of(pool0, models(pool@)[b].0),
                forall|i: int, j: int|
                    0 <= i < j < out@.len() && (#[trigger] models(out@)[i]).1.points == (
                    #[trigger] models(out@)[j]).1.points ==> idx_of(pool0, models(out@)[i].0)
                        < idx_of(pool0, models(out@)[j].0),
            decreases pool@.len(),
        {
            let mut m: usize = 0;
            let mut k: usize = 1;
            while k < pool.len()
                invariant
                    m < k <= pool@.len(),
                    pool@.len() > 0,
                    forall|b: int|
                        0 <= b < k ==> models(pool@)[m as int].1.points >= (#[trigger] models(
                            pool@,
                        )[b]).1.points,
                    forall|b: int|
                        0 <= b < m ==> (#[trigger] models(pool@)[b]).1.points < models(
                            pool@,
                        )[m as int].1.points,
                decreases pool@.len() - k,
            {
                if pool[k].1.points > pool[m].1.points {
                    m = k;
                }
                k = k + 1;
            }
            let ghost pool_pre = models(pool@);
            let ghost out_pre = models(out@);
            let e = pool.remove(m);
            proof {
                assert(models(pool@) =~= pool_pre.remove(m as int));
            }
            out.push(e);
            proof {
                broadcast use vstd::seq_lib::group_to_multiset_ensures;

                let ghost x = (e.0, e.1@);
                assert(pool_pre[m as int] == x);
                assert(models(out@) =~= out_pre.push(x));
                assert(models(out@).to_multiset() == out_pre.push(x).to_multiset());
                assert(models(out@).to_multiset() == out_pre.to_multiset().insert(x));
                assert(models(pool@).to_multiset() == pool_pre.remove(m as int).to_multiset());
                assert(models(pool@).to_multiset() == pool_pre.to_multiset().remove(x));
                assert(pool_pre.contains(x)) by {
                    assert(pool_pre[m as int] == x);
                }
                assert(pool_pre.to_multiset().count(x) > 0);
                assert(models(out@).to_multiset().add(models(pool@).to_multiset())
                    =~= pool0.to_multiset());
                let n = out_pre.len() as int;
                assert forall|a: int, b: int|
                    0 <= a <= b < models(out@).len() implies (#[trigger] models(out@)[a]).1.points
                    >= (#[trigger] models(out@)[b]).1.points by {
                    if b < n {
                        assert(models(out@)[a] == out_pre[a]);
                        assert(models(out@)[b] == out_pre[b]);
                    } else {
                        assert(models(out@)[b] == x);
                        if a < n {
                            assert(models(out@)[a] == out_pre[a]);
                            assert(out_pre[a].1.points >= pool_pre[m as int].1.points);
                        }
                    }
                }
                assert forall|a: int, b: int|
                    0 <= a < models(out@).len() && 0 <= b < models(pool@).len() implies (
                #[trigger] models(out@)[a]).1.points >= (#[trigger] models(pool@)[b]).1.points by {
                    let bb = if b < m { b } else { b + 1 };
                    assert(models(pool@)[b] == pool_pre[bb]);
                    assert(pool_pre[m as int].1.points >= pool_pre[bb].1.points);
                    if a < n {
                        assert(models(out@)[a] == out_pre[a]);
                        assert(out_pre[a].1.points >= pool_pre[bb].1.points);
                    } else {
                        assert(models(out@)[a] == x);
                    }
                }
                assert forall|a: int, b: int| 0 <= a < b < models(pool@).len() implies idx_of(
                    pool0,
                    (#[trigger] models(pool@)[a]).0,
                ) < idx_of(pool0, (#[trigger] models(pool@)[b]).0) by {
                    let aa = if a < m {
                        a
                    } else {
                        a + 1
                    };
                    let bb = if b < m {
                        b
                    } else {
                        b + 1
                    };
                    assert(models(pool@)[a] == pool_pre[aa]);
                    assert(models(pool@)[b] == pool_pre[bb]);
                }
                assert forall|a: int, b: int|
                    0 <= a < models(out@).len() && 0 <= b < models(pool@).len() && (
                #[trigger] models(out@)[a]).1.points == (#[trigger] models(
                    pool@,
                )[b]).1.points implies idx_of(pool0, models(out@)[a].0) < idx_of(
                    pool0,
                    models(pool@)[b].0,
                ) by {
                    let bb = if b < m {
                        b
                    } else {
                        b + 1
                    };
                    assert(models(pool@)[b] == pool_pre[bb]);
                    if a < n {
                        assert(models(out@)[a] == out_pre[a]);
                    } else {
                        assert(models(out@)[a] == pool_pre[m as int]);
                        if bb < m {
                            assert(pool_pre[bb].1.points < pool_pre[m as int].1.points);
                        } else {
                            assert(idx_of(pool0, pool_pre[m as int].0) < idx_of(
                                pool0,
                                pool_pre[bb].0,
                            ));
                        }
                    }
                }
                assert forall|i: int, j: int|
                    0 <= i < j < models(out@).len() && (#[trigger] models(out@)[i]).1.points == (
                #[trigger] models(out@)[j]).1.points implies idx_of(pool0, models(out@)[i].0)
                    < idx_of(pool0, models(out@)[j].0) by {
                    if j < n {
                        assert(models(out@)[i] == out_pre[i]);
                        assert(models(out@)[j] == out_pre[j]);
                    } else {
                        assert(models(out@)[j] == pool_pre[m as int]);
                        assert(models(out@)[i] == out_pre[i]);
                        assert(out_pre[i].1.points == pool_pre[m as int].1.points ==> idx_of(
                            pool0,
                            out_pre[i].0,
                        ) < idx_of(pool0, pool_pre[m as int].0));
                    }
                }
            }
        }
        proof {
            assert(models(pool@) =~= Seq::<(u64, RecordModel)>::empty());
            assert(models(pool@).to_multiset().len() == 0);
            assert(models(out@).to_multiset() =~= pool0.to_multiset());
        }
        out
    }
}

} // verus!
