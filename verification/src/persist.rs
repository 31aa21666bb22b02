//! What a round leaves in the store: a row per decision, a row per enemy
//! outcome, and the order in which a round is opened, filled and closed.
//!
//! The store itself (SQL, files, clocks) belongs to the caller, who writes
//! the rows computed here and asks `RoundTx` before each round operation.
use vstd::prelude::*;
use crate::algorithm::TargetingAlgorithm;
use crate::enemy::{Enemy, EnemyState};
use crate::ids::{DroneId, EnemyId};
use crate::metrics::count_neutralized;
use crate::world::{DistanceTable, SimEvent, World};

verus! {

/// A decision as it is stored: the tick, the drone, the enemy it chose (if
/// any) and the cost of the decision.
#[derive(Clone, Copy, Debug, PartialEq, Eq, Structural)]
pub struct DecisionRow {
    pub tick: u64,
    pub drone: DroneId,
    pub chosen_target: Option<EnemyId>,
    pub compute_ops: u64,
}

/// The outcome of one enemy as it is stored: neutralized by a drone, or
/// not (`None`) when it survived the round.
#[derive(Clone, Copy, Debug, PartialEq, Eq, Structural)]
pub struct OutcomeRow {
    pub enemy: EnemyId,
    pub neutralized_by: Option<DroneId>,
}

/// The operations on a round in the store.
#[derive(Clone, Copy, Debug, PartialEq, Eq, Structural)]
pub enum StoreOp {
    BeginRound,
    ApplyEvents,
    FinalizeRound,
}

/// Why the store refuses an operation.
#[derive(Clone, Copy, Debug, PartialEq, Eq, Structural)]
pub enum StoreError {
    /// A round was begun while another one is still open.
    RoundStillOpen,
    /// Events were applied with no round open.
    EventsWithoutRound,
    /// A round was finalized with none open.
    FinalizeWithoutRound,
}

impl StoreError {
    /// The message the store reports for this refusal.
    pub fn message(&self) -> (r: &'static str)
        ensures
            r@ == match self {
                StoreError::RoundStillOpen => "begin_round called while a round is still open"@,
                StoreError::EventsWithoutRound => "apply_events without an open round"@,
                StoreError::FinalizeWithoutRound => "finalize_round without an open round"@,
            },
    {
        match self {
            StoreError::RoundStillOpen => "begin_round called while a round is still open",
            StoreError::EventsWithoutRound => "apply_events without an open round",
            StoreError::FinalizeWithoutRound => "finalize_round without an open round",
        }
    }
}

/// Whether a round is open in the store. One round at a time: a round is
/// begun, filled with the events of its ticks, and finalized.
pub struct RoundTx {
    in_tx: bool,
}

/// What the store answers to `op` when a round is open (`in_tx`) or not.
pub open spec fn tx_answer(in_tx: bool, op: StoreOp) -> Result<(), StoreError> {
    match op {
        StoreOp::BeginRound => if in_tx { Err(StoreError::RoundStillOpen) } else { Ok(()) },
        StoreOp::ApplyEvents => if in_tx { Ok(()) } else { Err(StoreError::EventsWithoutRound) },
        StoreOp::FinalizeRound => if in_tx { Ok(()) } else { Err(StoreError::FinalizeWithoutRound) },
    }
}

/// Whether a round is open once `op` has been carried out.
pub open spec fn tx_after(in_tx: bool, op: StoreOp) -> bool {
    match op {
        StoreOp::BeginRound => true,
        StoreOp::ApplyEvents => in_tx,
        StoreOp::FinalizeRound => false,
    }
}

impl RoundTx {
    /// A round is open.
    pub closed spec fn is_open_spec(&self) -> bool {
        self.in_tx
    }

    /// A store with no round open.
    pub fn new() -> (t: Self)
        ensures
            !t.is_open_spec(),
    {
        RoundTx { in_tx: false }
    }

    /// Whether a round is open.
    pub fn is_open(&self) -> (r: bool)
        ensures
            r == self.is_open_spec(),
    {
        self.in_tx
    }

    /// Whether `op` may be carried out now: a round is begun only when none
    /// is open; events are applied and a round finalized only while one is.
    pub fn allows(&self, op: StoreOp) -> (r: Result<(), StoreError>)
        ensures
            r == tx_answer(self.is_open_spec(), op),
    {
        match op {
            StoreOp::BeginRound => if self.in_tx {
                Err(StoreError::RoundStillOpen)
            } else {
                Ok(())
            },
            StoreOp::ApplyEvents => if self.in_tx {
                Ok(())
            } else {
                Err(StoreError::EventsWithoutRound)
            },
            StoreOp::FinalizeRound => if self.in_tx {
                Ok(())
            } else {
                Err(StoreError::FinalizeWithoutRound)
            },
        }
    }

    /// Records that `op`, once admitted, has been carried out.
    pub fn carried_out(&mut self, op: StoreOp)
        requires
            tx_answer(old(self).is_open_spec(), op) is Ok,
        ensures
            final(self).is_open_spec() == tx_after(old(self).is_open_spec(), op),
    {
        match op {
            StoreOp::BeginRound => {
                self.in_tx = true;
            },
            StoreOp::ApplyEvents => {},
            StoreOp::FinalizeRound => {
                self.in_tx = false;
            },
        }
    }
}

/// One round at a time: once a round is begun, beginning another is
/// refused until it is finalized, while its events and its finalization are
/// accepted; applying events leaves it open; once it is finalized, a new
/// round may begin and events are refused.
pub proof fn law_one_round_at_a_time(in_tx: bool)
    ensures
        ({
            let opened = tx_after(in_tx, StoreOp::BeginRound);
            let closed = tx_after(opened, StoreOp::FinalizeRound);
            &&& tx_answer(opened, StoreOp::BeginRound) == Err::<(), StoreError>(StoreError::RoundStillOpen)
            &&& tx_answer(opened, StoreOp::ApplyEvents) is Ok
            &&& tx_answer(opened, StoreOp::FinalizeRound) is Ok
            &&& tx_after(opened, StoreOp::ApplyEvents) == opened
            &&& tx_answer(closed, StoreOp::BeginRound) is Ok
            &&& tx_answer(closed, StoreOp::ApplyEvents) == Err::<(), StoreError>(StoreError::EventsWithoutRound)
            &&& tx_answer(closed, StoreOp::FinalizeRound) == Err::<(), StoreError>(StoreError::FinalizeWithoutRound)
        }),
{
}

/// The decision rows of `events`, in order: one per decision event.
pub open spec fn decision_rows(events: Seq<SimEvent>) -> Seq<DecisionRow>
    decreases events.len(),
{
    if events.len() == 0 {
        Seq::empty()
    } else {
        decision_rows(events.drop_last()) + match events.last() {
            SimEvent::Decision { tick, drone, target, compute_ops } => seq![
                DecisionRow { tick, drone, chosen_target: target, compute_ops },
            ],
            _ => Seq::empty(),
        }
    }
}

/// The outcome rows of `events`, in order: one per kill, naming the killer.
/// Aborted locks leave no row.
pub open spec fn outcome_rows(events: Seq<SimEvent>) -> Seq<OutcomeRow>
    decreases events.len(),
{
    if events.len() == 0 {
        Seq::empty()
    } else {
        outcome_rows(events.drop_last()) + match events.last() {
            SimEvent::Neutralized { enemy, by, .. } => seq![
                OutcomeRow { enemy, neutralized_by: Some(by) },
            ],
            _ => Seq::empty(),
        }
    }
}

/// The outcome rows written when a round ends: one per enemy still alive,
/// in list order, with no killer.
pub open spec fn survivor_rows(enemies: Seq<Enemy>) -> Seq<OutcomeRow>
    decreases enemies.len(),
{
    if enemies.len() == 0 {
        Seq::empty()
    } else {
        survivor_rows(enemies.drop_last()) + if enemies.last().state == EnemyState::Alive {
            seq![OutcomeRow { enemy: enemies.last().id, neutralized_by: None }]
        } else {
            Seq::empty()
        }
    }
}

/// The rows that applying `events` writes: the decision rows and the
/// outcome rows, each in event order.
pub fn rows_for_events(events: &[SimEvent]) -> (r: (Vec<DecisionRow>, Vec<OutcomeRow>))
    ensures
        r.0@ == decision_rows(events@),
        r.1@ == outcome_rows(events@),
{
    let mut decisions: Vec<DecisionRow> = Vec::new();
    let mut outcomes: Vec<OutcomeRow> = Vec::new();
    let n = events.len();
    for i in 0..n
        invariant
            n == events@.len(),
            decisions@ == decision_rows(events@.take(i as int)),
            outcomes@ == outcome_rows(events@.take(i as int)),
    {
        assert(events@.take(i as int + 1).drop_last() == events@.take(i as int));
        match events[i] {
            SimEvent::Decision { tick, drone, target, compute_ops } => {
                decisions.push(DecisionRow { tick, drone, chosen_target: target, compute_ops });
            },
            SimEvent::Neutralized { enemy, by, .. } => {
                outcomes.push(OutcomeRow { enemy, neutralized_by: Some(by) });
            },
            SimEvent::EngagementAborted { .. } => {},
        }
    }
    assert(events@.take(n as int) == events@);
    (decisions, outcomes)
}

/// The outcome rows that finalizing a round writes for `enemies`: one per
/// enemy still alive.
pub fn rows_for_survivors(enemies: &[Enemy]) -> (r: Vec<OutcomeRow>)
    ensures
        r@ == survivor_rows(enemies@),
{
    let mut rows: Vec<OutcomeRow> = Vec::new();
    let n = enemies.len();
    for i in 0..n
        invariant
            n == enemies@.len(),
            rows@ == survivor_rows(enemies@.take(i as int)),
    {
        assert(enemies@.take(i as int + 1).drop_last() == enemies@.take(i as int));
        if enemies[i].is_alive() {
            rows.push(OutcomeRow { enemy: enemies[i].id, neutralized_by: None });
        }
    }
    assert(enemies@.take(n as int) == enemies@);
    rows
}


/// Writing the rows of two runs of events one after the other writes the
/// rows of their concatenation.
proof fn lemma_outcome_rows_concat(a: Seq<SimEvent>, b: Seq<SimEvent>)
    ensures
        outcome_rows(a + b) == outcome_rows(a) + outcome_rows(b),
    decreases b.len(),
{
    if b.len() == 0 {
        assert(a + b == a);
    } else {
        lemma_outcome_rows_concat(a, b.drop_last());
        assert((a + b).drop_last() == a + b.drop_last());
        assert((a + b).last() == b.last());
    }
}

/// Decisions leave no outcome row.
proof fn lemma_outcome_rows_of_decisions(a: Seq<SimEvent>)
    requires
        forall|t: int| 0 <= t < a.len() ==> (#[trigger] a[t]) is Decision,
    ensures
        outcome_rows(a) == Seq::<OutcomeRow>::empty(),
    decreases a.len(),
{
    if a.len() > 0 {
        assert forall|t: int| 0 <= t < a.drop_last().len() implies (#[trigger] a.drop_last()[t]) is Decision by {
            assert(a.drop_last()[t] == a[t]);
        }
        lemma_outcome_rows_of_decisions(a.drop_last());
        assert(a[a.len() - 1] is Decision);
    }
}

/// The outcome rows of progressing the locks on the first `m` enemies: one
/// per lock that becomes a kill, in enemy order, naming its holder.
proof fn lemma_progress_rows(d: &World, dist: &DistanceTable, m: int)
    requires
        d.wf(),
        0 <= m <= d.n_enemies(),
    ensures
        ({
            let r = outcome_rows(d.progress_events(dist, m));
            &&& forall|t: int|
                0 <= t < r.len() ==> {
                    let j = (#[trigger] r[t]).enemy.0 as int;
                    &&& j < m
                    &&& d.lock_kills(dist, j)
                    &&& r[t].neutralized_by == Some(d.engagements@[j]->0.drone_id)
                }
            &&& forall|t1: int, t2: int|
                0 <= t1 < t2 < r.len() ==> (#[trigger] r[t1]).enemy.0 < (#[trigger] r[t2]).enemy.0
            &&& forall|j: int|
                0 <= j < m && #[trigger] d.lock_kills(dist, j) ==> exists|t: int|
                    0 <= t < r.len() && (#[trigger] r[t]).enemy.0 == j
        }),
    decreases m,
{
    if m > 0 {
        lemma_progress_rows(d, dist, m - 1);
        let j = m - 1;
        let prev = d.progress_events(dist, m - 1);
        let tail = match d.engagements@[j] {
            None => Seq::<SimEvent>::empty(),
            Some(e) => if d.lock_aborts(dist, j) {
                seq![
                    SimEvent::EngagementAborted {
                        tick: d.tick,
                        drone: e.drone_id,
                        enemy: EnemyId(j as u32),
                        reason: crate::world::AbortReason::OutOfRange,
                    },
                ]
            } else if d.lock_due(j) {
                seq![SimEvent::Neutralized { tick: d.tick, enemy: EnemyId(j as u32), by: e.drone_id }]
            } else {
                Seq::empty()
            },
        };
        assert(d.progress_events(dist, m) == prev + tail);
        lemma_outcome_rows_concat(prev, tail);
        let rp = outcome_rows(prev);
        let r = outcome_rows(d.progress_events(dist, m));
        assert(outcome_rows(Seq::<SimEvent>::empty()) == Seq::<OutcomeRow>::empty());
        if tail.len() == 1 {
            assert(tail.drop_last() == Seq::<SimEvent>::empty());
            assert(tail.last() == tail[0]);
        }
        if d.lock_kills(dist, j) {
            assert(outcome_rows(tail) == seq![
                OutcomeRow { enemy: EnemyId(j as u32), neutralized_by: Some(d.engagements@[j]->0.drone_id) },
            ]);
            assert(r == rp.push(
                OutcomeRow { enemy: EnemyId(j as u32), neutralized_by: Some(d.engagements@[j]->0.drone_id) },
            ));
            assert(r[rp.len() as int].enemy.0 == j);
            assert forall|t: int| 0 <= t < rp.len() implies r[t] == rp[t] by {}
        } else {
            assert(outcome_rows(tail) == Seq::<OutcomeRow>::empty());
            assert(r == rp);
        }
    }
}

/// `rows` are the outcome rows written so far in a round that has reached
/// `w`: exactly one per neutralized enemy, naming the drone that killed it.
pub open spec fn records_kills(w: &World, rows: Seq<OutcomeRow>) -> bool {
    &&& forall|t: int|
        0 <= t < rows.len() ==> {
            let j = (#[trigger] rows[t]).enemy.0 as int;
            &&& j < w.n_enemies()
            &&& w.enemies@[j].state is Neutralized
            &&& rows[t].neutralized_by == Some(w.enemies@[j].state->by)
        }
    &&& forall|t1: int, t2: int|
        0 <= t1 < rows.len() && 0 <= t2 < rows.len() && t1 != t2 ==> (#[trigger] rows[t1]).enemy
            != (#[trigger] rows[t2]).enemy
    &&& forall|j: int|
        0 <= j < w.n_enemies() && (#[trigger] w.enemies@[j]).state is Neutralized ==> exists|t: int|
            0 <= t < rows.len() && (#[trigger] rows[t]).enemy.0 == j
}

/// Some row of `rows` is that of enemy number `j`.
pub open spec fn has_row_for(rows: Seq<OutcomeRow>, j: int) -> bool {
    exists|t: int| 0 <= t < rows.len() && (#[trigger] rows[t]).enemy.0 == j
}

/// A round in which no enemy is neutralized yet has written no outcome row.
pub proof fn lemma_nothing_to_record(w: &World)
    requires
        forall|j: int| 0 <= j < w.n_enemies() ==> #[trigger] w.enemies@[j].state == EnemyState::Alive,
    ensures
        records_kills(w, Seq::empty()),
{
}

/// The outcome rows of a tick keep the record: applying the events of each
/// tick of a round writes one row for each enemy killed on that tick, and
/// none for any other, so that the rows written so far are always exactly
/// one per neutralized enemy, naming its killer.
pub proof fn law_rows_follow_kills<A: TargetingAlgorithm + ?Sized>(algo: &A, w0: &World,
    w1: &World,
    dist: &DistanceTable,
    events: Seq<SimEvent>,
    rows: Seq<OutcomeRow>,
)
    requires
        w0.wf(),
        w0.stepped(algo, w1, dist, events),
        records_kills(w0, rows),
    ensures
        records_kills(w1, rows + outcome_rows(events)),
{
    let (s, d, decisions) = choose|s: World, d: World, decisions: Seq<SimEvent>|
        #![trigger s.decided(algo, &d, dist, decisions)]
        {
            &&& w0.sensed(&s, dist)
            &&& s.wf()
            &&& s.decided(algo, &d, dist, decisions)
            &&& d.wf()
            &&& d.progressed(w1, dist)
            &&& events == decisions + d.progress_events(dist, d.n_enemies() as int)
        };
    let n = w0.n_enemies();
    let pe = d.progress_events(dist, n as int);
    lemma_outcome_rows_concat(decisions, pe);
    lemma_outcome_rows_of_decisions(decisions);
    lemma_progress_rows(&d, dist, n as int);
    let fresh = outcome_rows(pe);
    assert(outcome_rows(events) == fresh);
    let all = rows + fresh;
    assert(d.enemies@ == w0.enemies@);
    assert forall|t: int| 0 <= t < all.len() implies {
        let j = (#[trigger] all[t]).enemy.0 as int;
        &&& j < w1.n_enemies()
        &&& w1.enemies@[j].state is Neutralized
        &&& all[t].neutralized_by == Some(w1.enemies@[j].state->by)
    } by {
        if t < rows.len() {
            assert(all[t] == rows[t]);
            let j = rows[t].enemy.0 as int;
            assert(d.enemy_progressed(w1, dist, j));
            assert(d.engagements@[j] is None);
        } else {
            assert(all[t] == fresh[t - rows.len()]);
            let j = fresh[t - rows.len()].enemy.0 as int;
            assert(d.enemy_progressed(w1, dist, j));
        }
    }
    assert forall|t1: int, t2: int|
        0 <= t1 < all.len() && 0 <= t2 < all.len() && t1 != t2 implies (#[trigger] all[t1]).enemy
            != (#[trigger] all[t2]).enemy by {
        if t1 < rows.len() && t2 < rows.len() {
            assert(all[t1] == rows[t1] && all[t2] == rows[t2]);
        } else if t1 >= rows.len() && t2 >= rows.len() {
            assert(all[t1] == fresh[t1 - rows.len()] && all[t2] == fresh[t2 - rows.len()]);
            if t1 < t2 {
                assert(fresh[t1 - rows.len()].enemy.0 < fresh[t2 - rows.len()].enemy.0);
            } else {
                assert(fresh[t2 - rows.len()].enemy.0 < fresh[t1 - rows.len()].enemy.0);
            }
        } else if t1 < rows.len() {
            assert(all[t1] == rows[t1] && all[t2] == fresh[t2 - rows.len()]);
            let j = fresh[t2 - rows.len()].enemy.0 as int;
            assert(d.lock_kills(dist, j));
            assert(d.enemy_alive(j));
        } else {
            assert(all[t2] == rows[t2] && all[t1] == fresh[t1 - rows.len()]);
            let j = fresh[t1 - rows.len()].enemy.0 as int;
            assert(d.lock_kills(dist, j));
            assert(d.enemy_alive(j));
        }
    }
    assert forall|j: int|
        0 <= j < w1.n_enemies() && (#[trigger] w1.enemies@[j]).state is Neutralized implies exists|t: int|
            0 <= t < all.len() && (#[trigger] all[t]).enemy.0 == j by {
        assert(d.enemy_progressed(w1, dist, j));
        if w0.enemies@[j].state is Neutralized {
            let t = choose|t: int| 0 <= t < rows.len() && (#[trigger] rows[t]).enemy.0 == j;
            assert(all[t] == rows[t]);
        } else {
            assert(d.lock_kills(dist, j));
            let t = choose|t: int| 0 <= t < fresh.len() && (#[trigger] fresh[t]).enemy.0 == j;
            assert(all[rows.len() + t] == fresh[t]);
        }
    }
}

/// The survivor rows of a list of enemies numbered by position: one per
/// alive enemy, in enemy order, with no killer; as many as the enemies not
/// neutralized.
proof fn lemma_survivor_rows(e: Seq<Enemy>)
    requires
        e.len() <= u32::MAX,
        forall|k: int| 0 <= k < e.len() ==> (#[trigger] e[k]).id.0 == k,
    ensures
        ({
            let r = survivor_rows(e);
            &&& forall|t: int|
                0 <= t < r.len() ==> {
                    let j = (#[trigger] r[t]).enemy.0 as int;
                    &&& j < e.len()
                    &&& e[j].state == EnemyState::Alive
                    &&& r[t].neutralized_by is None
                }
            &&& forall|t1: int, t2: int|
                0 <= t1 < t2 < r.len() ==> (#[trigger] r[t1]).enemy.0 < (#[trigger] r[t2]).enemy.0
            &&& forall|j: int|
                0 <= j < e.len() && (#[trigger] e[j]).state == EnemyState::Alive ==> exists|t: int|
                    0 <= t < r.len() && (#[trigger] r[t]).enemy.0 == j
            &&& r.len() + count_neutralized(e) == e.len()
        }),
    decreases e.len(),
{
    if e.len() > 0 {
        let p = e.drop_last();
        assert forall|k: int| 0 <= k < p.len() implies (#[trigger] p[k]).id.0 == k by {
            assert(p[k] == e[k]);
        }
        lemma_survivor_rows(p);
        let rp = survivor_rows(p);
        let r = survivor_rows(e);
        let j = e.len() - 1;
        assert(e.last() == e[j]);
        if e[j].state == EnemyState::Alive {
            assert(r == rp.push(OutcomeRow { enemy: e[j].id, neutralized_by: None }));
            assert(r[rp.len() as int].enemy.0 == j);
        } else {
            assert(r == rp);
        }
        assert forall|t: int| 0 <= t < rp.len() implies r[t] == rp[t] by {}
        assert forall|k: int| 0 <= k < p.len() implies p[k] == e[k] by {}
    }
}

/// Every enemy ends a round with exactly one outcome row. Once a round
/// whose outcome rows so far record its kills (see `law_rows_follow_kills`)
/// is finalized, its rows name each enemy exactly once; the row of a
/// neutralized enemy names its killer, that of a survivor none; and the
/// rows naming a killer are as many as the neutralized enemies.
pub proof fn law_one_outcome_per_enemy(w: &World, rows: Seq<OutcomeRow>)
    requires
        w.wf(),
        records_kills(w, rows),
    ensures
        ({
            let all = rows + survivor_rows(w.enemies@);
            &&& all.len() == w.n_enemies()
            &&& rows.len() == count_neutralized(w.enemies@)
            &&& forall|j: int| 0 <= j < w.n_enemies() ==> #[trigger] has_row_for(all, j)
            &&& forall|t1: int, t2: int|
                0 <= t1 < all.len() && 0 <= t2 < all.len() && t1 != t2 ==> (#[trigger] all[t1]).enemy
                    != (#[trigger] all[t2]).enemy
            &&& forall|t: int|
                0 <= t < all.len() ==> {
                    let j = (#[trigger] all[t]).enemy.0 as int;
                    &&& j < w.n_enemies()
                    &&& all[t].neutralized_by == match w.enemies@[j].state {
                        EnemyState::Neutralized { by, .. } => Some(by),
                        EnemyState::Alive => None,
                    }
                }
        }),
{
    let e = w.enemies@;
    let n = w.n_enemies();
    lemma_survivor_rows(e);
    let sv = survivor_rows(e);
    let all = rows + sv;
    assert forall|t: int| 0 <= t < all.len() implies {
        let j = (#[trigger] all[t]).enemy.0 as int;
        &&& j < n
        &&& all[t].neutralized_by == match e[j].state {
            EnemyState::Neutralized { by, .. } => Some(by),
            EnemyState::Alive => None,
        }
    } by {
        if t < rows.len() {
            assert(all[t] == rows[t]);
        } else {
            assert(all[t] == sv[t - rows.len()]);
        }
    }
    assert forall|t1: int, t2: int|
        0 <= t1 < all.len() && 0 <= t2 < all.len() && t1 != t2 implies (#[trigger] all[t1]).enemy
            != (#[trigger] all[t2]).enemy by {
        if t1 < rows.len() && t2 < rows.len() {
            assert(all[t1] == rows[t1] && all[t2] == rows[t2]);
        } else if t1 >= rows.len() && t2 >= rows.len() {
            assert(all[t1] == sv[t1 - rows.len()] && all[t2] == sv[t2 - rows.len()]);
            if t1 < t2 {
                assert(sv[t1 - rows.len()].enemy.0 < sv[t2 - rows.len()].enemy.0);
            } else {
                assert(sv[t2 - rows.len()].enemy.0 < sv[t1 - rows.len()].enemy.0);
            }
        } else if t1 < rows.len() {
            assert(all[t1] == rows[t1] && all[t2] == sv[t2 - rows.len()]);
        } else {
            assert(all[t2] == rows[t2] && all[t1] == sv[t1 - rows.len()]);
        }
    }
    assert forall|j: int| 0 <= j < n implies #[trigger] has_row_for(all, j) by {
        if e[j].state is Neutralized {
            let t = choose|t: int| 0 <= t < rows.len() && (#[trigger] rows[t]).enemy.0 == j;
            assert(all[t] == rows[t]);
        } else {
            assert(e[j].state == EnemyState::Alive);
            let t = choose|t: int| 0 <= t < sv.len() && (#[trigger] sv[t]).enemy.0 == j;
            assert(all[rows.len() + t] == sv[t]);
        }
    }
    // The enemy numbers of the rows are 0..n, each once.
    let ids = all.map_values(|r: OutcomeRow| r.enemy.0 as int);
    assert(ids.no_duplicates()) by {
        assert forall|a: int, b: int| 0 <= a < ids.len() && 0 <= b < ids.len() && a != b implies ids[a]
            != ids[b] by {
            assert(all[a].enemy != all[b].enemy);
        }
    }
    assert(ids.to_set() =~= vstd::set_lib::set_int_range(0, n as int)) by {
        assert forall|x: int| ids.to_set().contains(x) <==> vstd::set_lib::set_int_range(0, n as int).contains(x) by {
            if 0 <= x < n {
                assert(has_row_for(all, x));
                let t = choose|t: int| 0 <= t < all.len() && (#[trigger] all[t]).enemy.0 == x;
                assert(ids[t] == x);
            }
            if ids.to_set().contains(x) {
                let t = choose|t: int| 0 <= t < ids.len() && ids[t] == x;
                assert(all[t].enemy.0 < n);
            }
        }
    }
    ids.unique_seq_to_set();
    vstd::set_lib::lemma_int_range(0, n as int);
}

/// `worlds` is a round tick by tick: each world is well formed and the next
/// one is what a tick makes of it on the distances `dists[t]`, reporting
/// `events[t]`.
pub open spec fn round_trace<A: TargetingAlgorithm + ?Sized>(algo: &A, worlds: Seq<World>, dists: Seq<DistanceTable>, events: Seq<Seq<SimEvent>>) -> bool {
    &&& worlds.len() == events.len() + 1
    &&& dists.len() == events.len()
    &&& forall|t: int| 0 <= t < worlds.len() ==> (#[trigger] worlds[t]).wf()
    &&& forall|t: int|
        0 <= t < events.len() ==> #[trigger] worlds[t].stepped(algo, &worlds[t + 1], &dists[t], events[t])
}

/// The outcome rows written by applying the events of each tick in turn.
pub open spec fn outcome_rows_of_ticks(events: Seq<Seq<SimEvent>>) -> Seq<OutcomeRow>
    decreases events.len(),
{
    if events.len() == 0 {
        Seq::empty()
    } else {
        outcome_rows_of_ticks(events.drop_last()) + outcome_rows(events.last())
    }
}

/// The outcome rows written over the ticks of a round that starts with
/// every enemy alive record its kills.
proof fn lemma_trace_records_kills<A: TargetingAlgorithm + ?Sized>(algo: &A, worlds: Seq<World>, dists: Seq<DistanceTable>, events: Seq<Seq<SimEvent>>)
    requires
        round_trace(algo, worlds, dists, events),
        forall|j: int| 0 <= j < worlds[0].n_enemies() ==> #[trigger] worlds[0].enemies@[j].state == EnemyState::Alive,
    ensures
        records_kills(&worlds.last(), outcome_rows_of_ticks(events)),
    decreases events.len(),
{
    if events.len() == 0 {
        lemma_nothing_to_record(&worlds[0]);
    } else {
        let n = events.len();
        let w = worlds.drop_last();
        let e = events.drop_last();
        let d = dists.drop_last();
        assert(round_trace(algo, w, d, e)) by {
            assert forall|t: int| 0 <= t < w.len() implies (#[trigger] w[t]).wf() by {
                assert(w[t] == worlds[t]);
            }
            assert forall|t: int| 0 <= t < e.len() implies #[trigger] w[t].stepped(algo, &w[t + 1], &d[t], e[t]) by {
                assert(worlds[t].stepped(algo, &worlds[t + 1], &dists[t], events[t]));
            }
        }
        lemma_trace_records_kills(algo, w, d, e);
        assert(worlds[n - 1].stepped(algo, &worlds[n as int], &dists[n - 1], events[n - 1]));
        law_rows_follow_kills(algo, &worlds[n - 1], &worlds[n as int], &dists[n - 1], events[n - 1], outcome_rows_of_ticks(e));
    }
}

/// Every enemy ends a round with exactly one outcome row: over a round that
/// starts with every enemy alive, the outcome rows of its ticks followed by
/// those of its end name each enemy exactly once; the row of a neutralized
/// enemy names its killer, that of a survivor none; and the rows naming a
/// killer are as many as the enemies neutralized.
pub proof fn law_round_outcomes<A: TargetingAlgorithm + ?Sized>(algo: &A, worlds: Seq<World>, dists: Seq<DistanceTable>, events: Seq<Seq<SimEvent>>)
    requires
        round_trace(algo, worlds, dists, events),
        forall|j: int| 0 <= j < worlds[0].n_enemies() ==> #[trigger] worlds[0].enemies@[j].state == EnemyState::Alive,
    ensures
        ({
            let w = worlds.last();
            let kills = outcome_rows_of_ticks(events);
            let all = kills + survivor_rows(w.enemies@);
            &&& all.len() == w.n_enemies()
            &&& kills.len() == count_neutralized(w.enemies@)
            &&& forall|j: int| 0 <= j < w.n_enemies() ==> #[trigger] has_row_for(all, j)
            &&& forall|t1: int, t2: int|
                0 <= t1 < all.len() && 0 <= t2 < all.len() && t1 != t2 ==> (#[trigger] all[t1]).enemy
                    != (#[trigger] all[t2]).enemy
            &&& forall|t: int|
                0 <= t < all.len() ==> {
                    let j = (#[trigger] all[t]).enemy.0 as int;
                    &&& j < w.n_enemies()
                    &&& all[t].neutralized_by == match w.enemies@[j].state {
                        EnemyState::Neutralized { by, .. } => Some(by),
                        EnemyState::Alive => None,
                    }
                }
        }),
{
    lemma_trace_records_kills(algo, worlds, dists, events);
    assert(worlds.last() == worlds[worlds.len() - 1]);
    law_one_outcome_per_enemy(&worlds.last(), outcome_rows_of_ticks(events));
}

} // verus!
