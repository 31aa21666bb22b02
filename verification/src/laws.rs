//! What holds of every tick of a round, whatever the targeting rule decides.
use vstd::prelude::*;
use vstd::multiset::Multiset;
use crate::algorithm::{names_nearest_eligible, SelectResult, TargetingAlgorithm, TargetingView};
use crate::algorithms::NearestInRange;
use crate::drone::{Drone, DroneState};
use crate::enemy::{Enemy, EnemyState};
use crate::metrics::count_neutralized;
use crate::contact::{keeps_nearest, ranks_before, DroneContact, Ranked, TargetContact, MAX_DRONE_CONTACTS, MAX_TARGET_CONTACTS};
use crate::ids::{DroneId, EnemyId};
use crate::order::{f64_le, f64_lt};
use crate::world::{chose, is_choice, AbortReason, DistanceTable, SimEvent, World};

verus! {

/// Worlds whose drones are in the same states have the same live drones.
pub proof fn lemma_live_ids_same(a: &World, b: &World, m: int)
    requires
        a.n_drones() == b.n_drones(),
        m <= a.n_drones(),
        forall|i: int| 0 <= i < a.n_drones() ==> (#[trigger] a.drones@[i]).state == b.drones@[i].state,
    ensures
        a.live_ids_upto(m) == b.live_ids_upto(m),
    decreases m,
{
    if m > 0 {
        lemma_live_ids_same(a, b, m - 1);
        assert(a.drones@[m - 1].state == b.drones@[m - 1].state);
    }
}

/// Progressing the locks reports only aborts and kills.
pub proof fn lemma_progress_events_not_decisions(w: &World, dist: &DistanceTable, m: int)
    ensures
        forall|t: int|
            0 <= t < w.progress_events(dist, m).len() ==> !(#[trigger] w.progress_events(dist, m)[t] is Decision),
    decreases m,
{
    if m > 0 {
        lemma_progress_events_not_decisions(w, dist, m - 1);
        let prev = w.progress_events(dist, m - 1);
        let all = w.progress_events(dist, m);
        assert forall|t: int| 0 <= t < all.len() implies !(#[trigger] all[t] is Decision) by {
            if t < prev.len() {
                assert(all[t] == prev[t]);
            }
        }
    }
}

/// A kill is final: an enemy once neutralized stays neutralized, the same
/// way, and an expended drone stays expended, at the same tick.
pub proof fn law_kills_are_final<A: TargetingAlgorithm + ?Sized>(algo: &A, w0: &World, w1: &World, dist: &DistanceTable, events: Seq<SimEvent>)
    requires
        w0.wf(),
        w0.stepped(algo, w1, dist, events),
    ensures
        w1.n_enemies() == w0.n_enemies(),
        w1.n_drones() == w0.n_drones(),
        forall|j: int|
            0 <= j < w0.n_enemies() && !w0.enemy_alive(j) ==> #[trigger] w1.enemies@[j] == w0.enemies@[j],
        forall|i: int|
            0 <= i < w0.n_drones() && !w0.drone_live(i) ==> #[trigger] w1.drones@[i].state
                == w0.drones@[i].state,
{
    let (s, d, decisions) = choose|s: World, d: World, decisions: Seq<SimEvent>|
        #![trigger s.decided(algo, &d, dist, decisions)]
        {
            &&& w0.sensed(&s, dist)
            &&& s.wf()
            &&& s.decided(algo, &d, dist, decisions)
            &&& d.wf()
            &&& d.progressed(w1, dist)
            &&& events == decisions + d.progress_events(dist, d.n_enemies() as int)
        };
    assert forall|j: int| 0 <= j < w0.n_enemies() && !w0.enemy_alive(j) implies #[trigger] w1.enemies@[j] == w0.enemies@[j] by {
        assert(d.enemies@[j] == w0.enemies@[j]);
        assert(d.enemy_progressed(w1, dist, j));
        assert(d.engagements@[j] is None);
    }
    assert forall|i: int| 0 <= i < w0.n_drones() && !w0.drone_live(i) implies #[trigger] w1.drones@[i].state == w0.drones@[i].state by {
        assert(s.drones@[i].state == w0.drones@[i].state);
        assert(d.drones@[i].state == s.drones@[i].state);
        assert(d.drone_progressed(w1, dist, i));
        if d.kills_now(dist, i) {
            let j = d.lock_of(i)->0;
            d.lemma_lock_of_holds(i);
            assert(d.engagements@[j] is Some);
        }
    }
}

/// Every drone live at the start of a tick decides exactly once, in id
/// order, before anything else is reported; an expended drone never decides.
/// Each decision carries what the targeting rule returns for that drone on
/// what it sensed this tick: its id, the tick, its seeker range, its freshly
/// sensed contacts and its current lock.
pub proof fn law_live_drones_decide<A: TargetingAlgorithm + ?Sized>(algo: &A, w0: &World, w1: &World, dist: &DistanceTable, events: Seq<SimEvent>)
    requires
        w0.wf(),
        w0.stepped(algo, w1, dist, events),
    ensures
        events.len() >= w0.live_ids().len(),
        forall|t: int|
            0 <= t < w0.live_ids().len() ==> {
                &&& (#[trigger] events[t]) is Decision
                &&& events[t]->Decision_tick == w0.tick
                &&& events[t]->Decision_drone == w0.live_ids()[t]
            },
        forall|t: int|
            w0.live_ids().len() <= t < events.len() ==> !(#[trigger] events[t] is Decision),
        forall|t: int|
            0 <= t < events.len() && (#[trigger] events[t]) is Decision ==> w0.drone_live(
                events[t]->Decision_drone.0 as int,
            ),
        exists|s: World|
            #![trigger w0.sensed(&s, dist)]
            {
                &&& w0.sensed(&s, dist)
                &&& forall|t: int|
                    0 <= t < w0.live_ids().len() ==> algo.selects(
                        s.decision_input(w0.live_ids()[t].0 as int),
                        SelectResult {
                            target: (#[trigger] events[t])->Decision_target,
                            compute_ops: events[t]->Decision_compute_ops,
                        },
                    )
            },
{
    let (s, d, decisions) = choose|s: World, d: World, decisions: Seq<SimEvent>|
        #![trigger s.decided(algo, &d, dist, decisions)]
        {
            &&& w0.sensed(&s, dist)
            &&& s.wf()
            &&& s.decided(algo, &d, dist, decisions)
            &&& d.wf()
            &&& d.progressed(w1, dist)
            &&& events == decisions + d.progress_events(dist, d.n_enemies() as int)
        };
    assert forall|i: int| 0 <= i < w0.n_drones() implies (#[trigger] w0.drones@[i]).state == s.drones@[i].state by {
        assert(s.drones@[i].state == w0.drones@[i].state);
    }
    lemma_live_ids_same(w0, &s, w0.n_drones() as int);
    lemma_progress_events_not_decisions(&d, dist, d.n_enemies() as int);
    crate::world::lemma_live_ids_bound(w0, w0.n_drones() as int);
    let pe = d.progress_events(dist, d.n_enemies() as int);
    assert forall|t: int| 0 <= t < w0.live_ids().len() implies {
        &&& (#[trigger] events[t]) is Decision
        &&& events[t]->Decision_tick == w0.tick
        &&& events[t]->Decision_drone == w0.live_ids()[t]
    } by {
        assert(events[t] == decisions[t]);
    }
    assert forall|t: int| w0.live_ids().len() <= t < events.len() implies !(#[trigger] events[t] is Decision) by {
        assert(events[t] == pe[t - decisions.len()]);
    }
    assert forall|t: int| 0 <= t < events.len() && (#[trigger] events[t]) is Decision implies w0.drone_live(
        events[t]->Decision_drone.0 as int,
    ) by {
        if t >= decisions.len() {
            assert(events[t] == pe[t - decisions.len()]);
        } else {
            assert(events[t] == decisions[t]);
            assert(w0.drone_live((#[trigger] w0.live_ids_upto(w0.n_drones() as int)[t]).0 as int));
        }
    }
    assert forall|t: int| 0 <= t < w0.live_ids().len() implies algo.selects(
        s.decision_input(w0.live_ids()[t].0 as int),
        SelectResult {
            target: (#[trigger] events[t])->Decision_target,
            compute_ops: events[t]->Decision_compute_ops,
        },
    ) by {
        assert(events[t] == decisions[t]);
    }
}

/// A lock that becomes a kill is reported among the progress events.
pub proof fn lemma_kill_reported(w: &World, dist: &DistanceTable, m: int, j: int)
    requires
        0 <= j < m,
        w.lock_kills(dist, j),
    ensures
        w.progress_events(dist, m).contains(
            SimEvent::Neutralized {
                tick: w.tick,
                enemy: EnemyId(j as u32),
                by: w.engagements@[j]->0.drone_id,
            },
        ),
    decreases m,
{
    let ev = SimEvent::Neutralized {
        tick: w.tick,
        enemy: EnemyId(j as u32),
        by: w.engagements@[j]->0.drone_id,
    };
    let prev = w.progress_events(dist, m - 1);
    let all = w.progress_events(dist, m);
    if j < m - 1 {
        lemma_kill_reported(w, dist, m - 1, j);
        let t = choose|t: int| 0 <= t < prev.len() && prev[t] == ev;
        assert(all[t] == ev);
    } else {
        assert(all[prev.len() as int] == ev);
    }
}

/// The t_kill rule: an enemy is neutralized only by the drone holding its
/// lock, only once that lock has been held for `kill_ticks` ticks (a lock
/// taken this tick counts as held for none), only while the enemy is within
/// the drone's seeker range. The kill is stamped with the current tick,
/// expends the drone at that tick, and is reported.
pub proof fn law_kill_requires_held_lock<A: TargetingAlgorithm + ?Sized>(algo: &A, w0: &World,
    w1: &World,
    dist: &DistanceTable,
    events: Seq<SimEvent>,
    j: int,
)
    requires
        w0.wf(),
        w0.stepped(algo, w1, dist, events),
        0 <= j < w0.n_enemies(),
        w0.enemy_alive(j),
        w1.enemies@[j].state is Neutralized,
    ensures
        ({
            let by = w1.enemies@[j].state->by;
            &&& w1.enemies@[j].state == (EnemyState::Neutralized { at_tick: w0.tick, by })
            &&& by.0 < w0.n_drones()
            &&& !f64_lt(w0.drones@[by.0 as int].detection_range, dist.enemy_dist(by.0 as int, j))
            &&& w1.drones@[by.0 as int].state == (DroneState::Expended { at_tick: w0.tick })
            &&& match w0.engagements@[j] {
                Some(e) => e.drone_id == by && w0.tick - e.started_tick >= w0.kill_ticks,
                None => w0.kill_ticks == 0 && chose(events, by, EnemyId(j as u32)),
            }
            &&& events.contains(SimEvent::Neutralized { tick: w0.tick, enemy: EnemyId(j as u32), by })
        }),
{
    let (s, d, decisions) = choose|s: World, d: World, decisions: Seq<SimEvent>|
        #![trigger s.decided(algo, &d, dist, decisions)]
        {
            &&& w0.sensed(&s, dist)
            &&& s.wf()
            &&& s.decided(algo, &d, dist, decisions)
            &&& d.wf()
            &&& d.progressed(w1, dist)
            &&& events == decisions + d.progress_events(dist, d.n_enemies() as int)
        };
    assert(d.enemies@[j] == w0.enemies@[j]);
    assert(d.enemy_progressed(w1, dist, j));
    assert(s.engagements@[j] == w0.engagements@[j]);
    let e = d.engagements@[j]->0;
    let i = e.drone_id.0 as int;
    assert(d.lock_kills(dist, j));
    d.lemma_lock_of(i, j);
    assert(d.drone_progressed(w1, dist, i));
    assert(d.drones@[i].detection_range == w0.drones@[i].detection_range);
    if d.engagements@[j] != s.engagements@[j] {
        assert(s.acquired(&d, dist, decisions, j));
        let t = choose|t: int| 0 <= t < decisions.len() && is_choice(#[trigger] decisions[t], e.drone_id, EnemyId(j as u32));
        assert(events[t] == decisions[t]);
    }
    lemma_kill_reported(&d, dist, d.n_enemies() as int, j);
    let pe = d.progress_events(dist, d.n_enemies() as int);
    let ev = SimEvent::Neutralized { tick: w0.tick, enemy: EnemyId(j as u32), by: e.drone_id };
    let t = choose|t: int| 0 <= t < pe.len() && pe[t] == ev;
    assert(events[decisions.len() + t] == ev);
}

/// Of the drones that choose the same free enemy on one tick, the one with
/// the smallest id gets it: after the tick the enemy is locked, or already
/// neutralized, by a drone whose id is no larger than any chooser's.
pub proof fn law_first_chooser_wins<A: TargetingAlgorithm + ?Sized>(algo: &A, w0: &World,
    w1: &World,
    dist: &DistanceTable,
    events: Seq<SimEvent>,
    chooser: DroneId,
    j: int,
)
    requires
        w0.wf(),
        w0.stepped(algo, w1, dist, events),
        chose(events, chooser, EnemyId(j as u32)),
        w0.may_acquire(dist, chooser, j),
        w0.engagements@[j] is None,
    ensures
        (w1.engagements@[j] is Some && w1.engagements@[j]->0.drone_id.0 <= chooser.0) || (
        w1.enemies@[j].state is Neutralized && w1.enemies@[j].state->by.0 <= chooser.0),
{
    let (s, d, decisions) = choose|s: World, d: World, decisions: Seq<SimEvent>|
        #![trigger s.decided(algo, &d, dist, decisions)]
        {
            &&& w0.sensed(&s, dist)
            &&& s.wf()
            &&& s.decided(algo, &d, dist, decisions)
            &&& d.wf()
            &&& d.progressed(w1, dist)
            &&& events == decisions + d.progress_events(dist, d.n_enemies() as int)
        };
    lemma_progress_events_not_decisions(&d, dist, d.n_enemies() as int);
    let pe = d.progress_events(dist, d.n_enemies() as int);
    let t = choose|t: int| 0 <= t < events.len() && is_choice(#[trigger] events[t], chooser, EnemyId(j as u32));
    if t >= decisions.len() {
        assert(events[t] == pe[t - decisions.len()]);
        assert(false);
    }
    assert(events[t] == decisions[t]);
    assert(chose(decisions, chooser, EnemyId(j as u32)));
    // Sensing leaves what `may_acquire` reads unchanged.
    assert forall|k: int| 0 <= k < w0.n_enemies() implies (s.holds(chooser.0 as int, k) <==> w0.holds(chooser.0 as int, k)) by {}
    crate::world::lemma_same_lock(w0, &s, chooser.0 as int);
    assert(s.drones@[chooser.0 as int].state == w0.drones@[chooser.0 as int].state);
    assert(s.drones@[chooser.0 as int].detection_range == w0.drones@[chooser.0 as int].detection_range);
    assert(s.may_acquire(dist, chooser, j));
    assert(d.engagements@[j] is Some);
    assert(d.engagements@[j] != s.engagements@[j]);
    assert(s.acquired(&d, dist, decisions, j));
    assert(d.enemy_progressed(w1, dist, j));
    let h = d.engagements@[j]->0.drone_id.0 as int;
    assert(d.drones@[h].detection_range == s.drones@[h].detection_range);
}

/// Every target candidate is an alive enemy within range, with its lock owner.
pub proof fn lemma_target_candidates_sound(w: &World, dist: &DistanceTable, i: int, m: int)
    requires
        w.wf(),
        m <= w.n_enemies(),
    ensures
        forall|c: TargetContact|
            #[trigger] w.target_candidates_upto(dist, i, m).contains(c) ==> {
                &&& 0 <= c.id.0 < m
                &&& w.enemy_alive(c.id.0 as int)
                &&& c.distance == dist.enemy_dist(i, c.id.0 as int)
                &&& f64_le(c.distance, w.drones@[i].detection_range)
                &&& c.engaged_by == w.lock_owner(c.id.0 as int)
            },
    decreases m,
{
    if m > 0 {
        lemma_target_candidates_sound(w, dist, i, m - 1);
        let prev = w.target_candidates_upto(dist, i, m - 1);
        let all = w.target_candidates_upto(dist, i, m);
        assert forall|c: TargetContact| #[trigger] all.contains(c) implies {
            &&& 0 <= c.id.0 < m
            &&& w.enemy_alive(c.id.0 as int)
            &&& c.distance == dist.enemy_dist(i, c.id.0 as int)
            &&& f64_le(c.distance, w.drones@[i].detection_range)
            &&& c.engaged_by == w.lock_owner(c.id.0 as int)
        } by {
            let t = choose|t: int| 0 <= t < all.len() && all[t] == c;
            if t < prev.len() {
                assert(prev[t] == c);
                assert(prev.contains(c));
            }
        }
    }
}

/// Every friend candidate is another live drone within range.
pub proof fn lemma_friend_candidates_sound(w: &World, dist: &DistanceTable, i: int, m: int)
    requires
        w.wf(),
        m <= w.n_drones(),
    ensures
        forall|c: DroneContact|
            #[trigger] w.friend_candidates_upto(dist, i, m).contains(c) ==> {
                &&& 0 <= c.id.0 < m
                &&& c.id.0 != i
                &&& w.drone_live(c.id.0 as int)
                &&& c.distance == dist.drone_dist(i, c.id.0 as int)
                &&& f64_le(c.distance, w.drones@[i].detection_range)
            },
    decreases m,
{
    if m > 0 {
        lemma_friend_candidates_sound(w, dist, i, m - 1);
        let prev = w.friend_candidates_upto(dist, i, m - 1);
        let all = w.friend_candidates_upto(dist, i, m);
        assert forall|c: DroneContact| #[trigger] all.contains(c) implies {
            &&& 0 <= c.id.0 < m
            &&& c.id.0 != i
            &&& w.drone_live(c.id.0 as int)
            &&& c.distance == dist.drone_dist(i, c.id.0 as int)
            &&& f64_le(c.distance, w.drones@[i].detection_range)
        } by {
            let t = choose|t: int| 0 <= t < all.len() && all[t] == c;
            if t < prev.len() {
                assert(prev[t] == c);
                assert(prev.contains(c));
            }
        }
    }
}

/// What a drone keeps of a list it chose from was in that list.
pub proof fn lemma_kept_from<C: Ranked>(kept: Seq<C>, items: Seq<C>, cap: nat, c: C)
    requires
        keeps_nearest(kept, items, cap),
        kept.contains(c),
    ensures
        items.contains(c),
{
    broadcast use {vstd::seq_lib::group_to_multiset_ensures, vstd::multiset::group_multiset_axioms};
    assert(kept.to_multiset().contains(c));
    assert(items.to_multiset().contains(c));
}

/// Every alive enemy within drone `i`'s seeker range is a target candidate,
/// with its distance and its lock owner.
pub proof fn lemma_target_candidates_complete(w: &World, dist: &DistanceTable, i: int, m: int)
    requires
        w.wf(),
        m <= w.n_enemies(),
    ensures
        forall|j: int|
            0 <= j < m && w.enemies@[j].state == EnemyState::Alive && f64_le(
                #[trigger] dist.enemy_dist(i, j),
                w.drones@[i].detection_range,
            ) ==> w.target_candidates_upto(dist, i, m).contains(
                TargetContact {
                    id: EnemyId(j as u32),
                    distance: dist.enemy_dist(i, j),
                    engaged_by: match w.engagements@[j] {
                        Some(e) => Some(e.drone_id),
                        None => None,
                    },
                },
            ),
    decreases m,
{
    if m > 0 {
        lemma_target_candidates_complete(w, dist, i, m - 1);
        let prev = w.target_candidates_upto(dist, i, m - 1);
        let all = w.target_candidates_upto(dist, i, m);
        assert forall|j: int|
            0 <= j < m && w.enemies@[j].state == EnemyState::Alive && f64_le(
                #[trigger] dist.enemy_dist(i, j),
                w.drones@[i].detection_range,
            ) implies all.contains(
                TargetContact {
                    id: EnemyId(j as u32),
                    distance: dist.enemy_dist(i, j),
                    engaged_by: match w.engagements@[j] {
                        Some(e) => Some(e.drone_id),
                        None => None,
                    },
                },
            ) by {
            let c = TargetContact {
                id: EnemyId(j as u32),
                distance: dist.enemy_dist(i, j),
                engaged_by: match w.engagements@[j] {
                    Some(e) => Some(e.drone_id),
                    None => None,
                },
            };
            if j < m - 1 {
                let t = choose|t: int| 0 <= t < prev.len() && prev[t] == c;
                assert(all[t] == c);
            } else {
                assert(all == prev.push(c));
                assert(all[prev.len() as int] == c);
            }
        }
    }
}

/// Every other live drone within drone `i`'s seeker range is a friend
/// candidate, with its distance.
pub proof fn lemma_friend_candidates_complete(w: &World, dist: &DistanceTable, i: int, m: int)
    requires
        w.wf(),
        m <= w.n_drones(),
    ensures
        forall|k: int|
            0 <= k < m && k != i && w.drones@[k].state == DroneState::Live && f64_le(
                #[trigger] dist.drone_dist(i, k),
                w.drones@[i].detection_range,
            ) ==> w.friend_candidates_upto(dist, i, m).contains(
                DroneContact { id: DroneId(k as u32), distance: dist.drone_dist(i, k) },
            ),
    decreases m,
{
    if m > 0 {
        lemma_friend_candidates_complete(w, dist, i, m - 1);
        let prev = w.friend_candidates_upto(dist, i, m - 1);
        let all = w.friend_candidates_upto(dist, i, m);
        assert forall|k: int|
            0 <= k < m && k != i && w.drones@[k].state == DroneState::Live && f64_le(
                #[trigger] dist.drone_dist(i, k),
                w.drones@[i].detection_range,
            ) implies all.contains(DroneContact { id: DroneId(k as u32), distance: dist.drone_dist(i, k) }) by {
            let c = DroneContact { id: DroneId(k as u32), distance: dist.drone_dist(i, k) };
            if k < m - 1 {
                let t = choose|t: int| 0 <= t < prev.len() && prev[t] == c;
                assert(all[t] == c);
            } else {
                assert(all == prev.push(c));
                assert(all[prev.len() as int] == c);
            }
        }
    }
}

/// A contact of the list a drone chose from is kept, or the drone kept a
/// full list of contacts that rank no later than it.
pub proof fn lemma_kept_or_outranked<C: Ranked>(kept: Seq<C>, items: Seq<C>, cap: nat, x: C)
    requires
        keeps_nearest(kept, items, cap),
        items.contains(x),
    ensures
        kept.contains(x) || (kept.len() == cap && ranks_before(kept.last(), x)),
{
    broadcast use {vstd::seq_lib::group_to_multiset_ensures, vstd::multiset::group_multiset_axioms};
    if !kept.contains(x) {
        assert(items.to_multiset().count(x) > 0);
        assert(kept.to_multiset().count(x) == 0);
        let rest = items.to_multiset().sub(kept.to_multiset());
        assert(rest.count(x) > 0);
        assert(rest.contains(x));
        if kept.len() != cap {
            assert(kept.len() == items.len());
            assert(rest.len() == 0);
            assert(rest =~= Multiset::empty());
        }
    }
}

/// Sensing is complete: after a tick, a live drone remembers every alive
/// enemy within its seeker range (with its distance and the lock owner at
/// the start of the tick), and every other live drone within that range,
/// unless it already remembers eight contacts that are all no farther.
pub proof fn law_sensing_complete<A: TargetingAlgorithm + ?Sized>(
    algo: &A,
    w0: &World,
    w1: &World,
    dist: &DistanceTable,
    events: Seq<SimEvent>,
    i: int,
)
    requires
        w0.wf(),
        w0.stepped(algo, w1, dist, events),
        0 <= i < w0.n_drones(),
        w1.drone_live(i),
    ensures
        forall|j: int|
            0 <= j < w0.n_enemies() && w0.enemies@[j].state == EnemyState::Alive && f64_le(
                #[trigger] dist.enemy_dist(i, j),
                w0.drones@[i].detection_range,
            ) ==> {
                let c = TargetContact {
                    id: EnemyId(j as u32),
                    distance: dist.enemy_dist(i, j),
                    engaged_by: match w0.engagements@[j] {
                        Some(e) => Some(e.drone_id),
                        None => None,
                    },
                };
                let kept = w1.drones@[i].nearby_targets();
                ||| kept.contains(c)
                ||| (kept.len() == MAX_TARGET_CONTACTS && ranks_before(kept.last(), c))
            },
        forall|k: int|
            0 <= k < w0.n_drones() && k != i && w0.drones@[k].state == DroneState::Live && f64_le(
                #[trigger] dist.drone_dist(i, k),
                w0.drones@[i].detection_range,
            ) ==> {
                let c = DroneContact { id: DroneId(k as u32), distance: dist.drone_dist(i, k) };
                let kept = w1.drones@[i].nearby_drones();
                ||| kept.contains(c)
                ||| (kept.len() == MAX_DRONE_CONTACTS && ranks_before(kept.last(), c))
            },
{
    law_sensing(algo, w0, w1, dist, events, i);
    lemma_target_candidates_complete(w0, dist, i, w0.n_enemies() as int);
    lemma_friend_candidates_complete(w0, dist, i, w0.n_drones() as int);
    assert forall|j: int|
        0 <= j < w0.n_enemies() && w0.enemies@[j].state == EnemyState::Alive && f64_le(
            #[trigger] dist.enemy_dist(i, j),
            w0.drones@[i].detection_range,
        ) implies {
            let c = TargetContact {
                id: EnemyId(j as u32),
                distance: dist.enemy_dist(i, j),
                engaged_by: match w0.engagements@[j] {
                    Some(e) => Some(e.drone_id),
                    None => None,
                },
            };
            let kept = w1.drones@[i].nearby_targets();
            ||| kept.contains(c)
            ||| (kept.len() == MAX_TARGET_CONTACTS && ranks_before(kept.last(), c))
        } by {
        let c = TargetContact {
            id: EnemyId(j as u32),
            distance: dist.enemy_dist(i, j),
            engaged_by: match w0.engagements@[j] {
                Some(e) => Some(e.drone_id),
                None => None,
            },
        };
        lemma_kept_or_outranked(w1.drones@[i].nearby_targets(), w0.target_candidates(dist, i), MAX_TARGET_CONTACTS as nat, c);
    }
    assert forall|k: int|
        0 <= k < w0.n_drones() && k != i && w0.drones@[k].state == DroneState::Live && f64_le(
            #[trigger] dist.drone_dist(i, k),
            w0.drones@[i].detection_range,
        ) implies {
            let c = DroneContact { id: DroneId(k as u32), distance: dist.drone_dist(i, k) };
            let kept = w1.drones@[i].nearby_drones();
            ||| kept.contains(c)
            ||| (kept.len() == MAX_DRONE_CONTACTS && ranks_before(kept.last(), c))
        } by {
        let c = DroneContact { id: DroneId(k as u32), distance: dist.drone_dist(i, k) };
        lemma_kept_or_outranked(w1.drones@[i].nearby_drones(), w0.friend_candidates(dist, i), MAX_DRONE_CONTACTS as nat, c);
    }
}

/// Sensing: after a tick, a live drone remembers at most eight enemies and
/// eight friends, the nearest ones; each enemy it remembers was alive at
/// sensing, lies within its seeker range, and carries the lock owner as it
/// stood before this tick's decisions; each friend is another drone, live at
/// the start of the tick and within range. Out-of-range enemies, corpses,
/// itself and expended friends are never remembered.
pub proof fn law_sensing<A: TargetingAlgorithm + ?Sized>(algo: &A, w0: &World, w1: &World, dist: &DistanceTable, events: Seq<SimEvent>, i: int)
    requires
        w0.wf(),
        w0.stepped(algo, w1, dist, events),
        0 <= i < w0.n_drones(),
        w1.drone_live(i),
    ensures
        keeps_nearest(w1.drones@[i].nearby_targets(), w0.target_candidates(dist, i), MAX_TARGET_CONTACTS as nat),
        keeps_nearest(w1.drones@[i].nearby_drones(), w0.friend_candidates(dist, i), MAX_DRONE_CONTACTS as nat),
        forall|c: TargetContact|
            #[trigger] w1.drones@[i].nearby_targets().contains(c) ==> {
                &&& 0 <= c.id.0 < w0.n_enemies()
                &&& w0.enemy_alive(c.id.0 as int)
                &&& c.distance == dist.enemy_dist(i, c.id.0 as int)
                &&& f64_le(c.distance, w0.drones@[i].detection_range)
                &&& c.engaged_by == w0.lock_owner(c.id.0 as int)
            },
        forall|c: DroneContact|
            #[trigger] w1.drones@[i].nearby_drones().contains(c) ==> {
                &&& 0 <= c.id.0 < w0.n_drones()
                &&& c.id.0 != i
                &&& w0.drone_live(c.id.0 as int)
                &&& c.distance == dist.drone_dist(i, c.id.0 as int)
                &&& f64_le(c.distance, w0.drones@[i].detection_range)
            },
{
    let (s, d, decisions) = choose|s: World, d: World, decisions: Seq<SimEvent>|
        #![trigger s.decided(algo, &d, dist, decisions)]
        {
            &&& w0.sensed(&s, dist)
            &&& s.wf()
            &&& s.decided(algo, &d, dist, decisions)
            &&& d.wf()
            &&& d.progressed(w1, dist)
            &&& events == decisions + d.progress_events(dist, d.n_enemies() as int)
        };
    assert(d.drone_progressed(w1, dist, i));
    if d.kills_now(dist, i) {
        assert(w1.drones@[i].state is Expended);
        assert(false);
    }
    assert(w1.drones@[i] == d.drones@[i]);
    assert(s.drones@[i].state == w0.drones@[i].state);
    assert(w0.drone_live(i));
    lemma_target_candidates_sound(w0, dist, i, w0.n_enemies() as int);
    lemma_friend_candidates_sound(w0, dist, i, w0.n_drones() as int);
    assert forall|c: TargetContact| #[trigger] w1.drones@[i].nearby_targets().contains(c) implies {
        &&& 0 <= c.id.0 < w0.n_enemies()
        &&& w0.enemy_alive(c.id.0 as int)
        &&& c.distance == dist.enemy_dist(i, c.id.0 as int)
        &&& f64_le(c.distance, w0.drones@[i].detection_range)
        &&& c.engaged_by == w0.lock_owner(c.id.0 as int)
    } by {
        lemma_kept_from(w1.drones@[i].nearby_targets(), w0.target_candidates(dist, i), MAX_TARGET_CONTACTS as nat, c);
    }
    assert forall|c: DroneContact| #[trigger] w1.drones@[i].nearby_drones().contains(c) implies {
        &&& 0 <= c.id.0 < w0.n_drones()
        &&& c.id.0 != i
        &&& w0.drone_live(c.id.0 as int)
        &&& c.distance == dist.drone_dist(i, c.id.0 as int)
        &&& f64_le(c.distance, w0.drones@[i].detection_range)
    } by {
        lemma_kept_from(w1.drones@[i].nearby_drones(), w0.friend_candidates(dist, i), MAX_DRONE_CONTACTS as nat, c);
    }
}

/// How many of the drones are expended.
pub open spec fn count_expended(drones: Seq<Drone>) -> nat
    decreases drones.len(),
{
    if drones.len() == 0 {
        0
    } else {
        count_expended(drones.drop_last()) + if drones.last().state is Expended {
            1nat
        } else {
            0nat
        }
    }
}

/// The neutralized enemies, by number.
pub open spec fn neutralized_set(e: Seq<Enemy>) -> Set<int> {
    Set::new(|j: int| 0 <= j < e.len() && e[j].state is Neutralized)
}

/// The expended drones, by number.
pub open spec fn expended_set(d: Seq<Drone>) -> Set<int> {
    Set::new(|i: int| 0 <= i < d.len() && d[i].state is Expended)
}

proof fn lemma_count_neutralized_is_set_len(e: Seq<Enemy>)
    ensures
        neutralized_set(e).finite(),
        count_neutralized(e) == neutralized_set(e).len(),
    decreases e.len(),
{
    if e.len() == 0 {
        assert(neutralized_set(e) =~= Set::<int>::empty());
    } else {
        let p = e.drop_last();
        lemma_count_neutralized_is_set_len(p);
        let n = e.len() - 1;
        if e.last().state is Neutralized {
            assert(neutralized_set(e) =~= neutralized_set(p).insert(n));
        } else {
            assert(neutralized_set(e) =~= neutralized_set(p));
        }
    }
}

proof fn lemma_count_expended_is_set_len(d: Seq<Drone>)
    ensures
        expended_set(d).finite(),
        count_expended(d) == expended_set(d).len(),
    decreases d.len(),
{
    if d.len() == 0 {
        assert(expended_set(d) =~= Set::<int>::empty());
    } else {
        let p = d.drop_last();
        lemma_count_expended_is_set_len(p);
        let n = d.len() - 1;
        if d.last().state is Expended {
            assert(expended_set(d) =~= expended_set(p).insert(n));
        } else {
            assert(expended_set(d) =~= expended_set(p));
        }
    }
}

/// Kills and spent drones match one to one: in every well-formed state of a
/// round (and every tick keeps a round well formed), as many enemies are
/// neutralized as drones are expended.
pub proof fn law_kills_match_spent_drones(w: &World)
    requires
        w.wf(),
    ensures
        count_neutralized(w.enemies@) == count_expended(w.drones@),
{
    let e = w.enemies@;
    let d = w.drones@;
    lemma_count_neutralized_is_set_len(e);
    lemma_count_expended_is_set_len(d);
    let ns = neutralized_set(e);
    let es = expended_set(d);
    let f = |j: int| e[j].state->by.0 as int;
    assert(vstd::relations::injective_on(f, ns)) by {
        assert forall|a: int, b: int| ns.contains(a) && ns.contains(b) && #[trigger] f(a) == #[trigger] f(b) implies a == b by {
            if a != b {
                assert(e[a].state is Neutralized && e[b].state is Neutralized);
                assert(e[a].state->by != e[b].state->by);
            }
        }
    }
    assert(ns.map(f) =~= es) by {
        assert forall|i: int| ns.map(f).contains(i) implies es.contains(i) by {
            let j = choose|j: int| ns.contains(j) && f(j) == i;
            assert(e[j].state is Neutralized);
        }
        assert forall|i: int| es.contains(i) implies ns.map(f).contains(i) by {
            assert(d[i].state is Expended);
            let j = choose|j: int| 0 <= j < w.n_enemies() && (#[trigger] w.enemies@[j]).state == (EnemyState::Neutralized {
                at_tick: w.drones@[i].state->at_tick,
                by: DroneId(i as u32),
            });
            assert(ns.contains(j));
            assert(f(j) == i);
        }
    }
    vstd::set_lib::lemma_map_size(ns, es, f);
}

/// Under `NearestInRange` every decision of a tick, a locked drone's
/// included, names the nearest eligible enemy the drone sensed (none when it
/// sensed none) and costs at least one operation.
pub proof fn law_nearest_decisions(w0: &World, w1: &World, dist: &DistanceTable, events: Seq<SimEvent>)
    requires
        w0.wf(),
        w0.stepped(&NearestInRange, w1, dist, events),
    ensures
        exists|s: World|
            #![trigger w0.sensed(&s, dist)]
            {
                &&& w0.sensed(&s, dist)
                &&& forall|t: int|
                    0 <= t < w0.live_ids().len() ==> {
                        &&& names_nearest_eligible(
                            s.decision_input(w0.live_ids()[t].0 as int),
                            (#[trigger] events[t])->Decision_target,
                        )
                        &&& events[t]->Decision_compute_ops >= 1
                    }
            },
{
    law_live_drones_decide(&NearestInRange, w0, w1, dist, events);
    let s = choose|s: World|
        #![trigger w0.sensed(&s, dist)]
        {
            &&& w0.sensed(&s, dist)
            &&& forall|t: int|
                0 <= t < w0.live_ids().len() ==> NearestInRange.selects(
                    s.decision_input(w0.live_ids()[t].0 as int),
                    SelectResult {
                        target: (#[trigger] events[t])->Decision_target,
                        compute_ops: events[t]->Decision_compute_ops,
                    },
                )
        };
    assert forall|t: int| 0 <= t < w0.live_ids().len() implies {
        &&& names_nearest_eligible(
            s.decision_input(w0.live_ids()[t].0 as int),
            (#[trigger] events[t])->Decision_target,
        )
        &&& events[t]->Decision_compute_ops >= 1
    } by {
        assert(NearestInRange.selects(
            s.decision_input(w0.live_ids()[t].0 as int),
            SelectResult { target: events[t]->Decision_target, compute_ops: events[t]->Decision_compute_ops },
        ));
    }
}

/// Decision event `ev` carries what `algo` returns on `v`.
pub open spec fn rule_returns<A: TargetingAlgorithm + ?Sized>(algo: &A, v: TargetingView, ev: SimEvent) -> bool {
    algo.selects(v, SelectResult { target: ev->Decision_target, compute_ops: ev->Decision_compute_ops })
}

/// `lock` is the enemy drone `i` holds a lock on in `w`, or none when it
/// holds none.
pub open spec fn holds_start_lock(w: &World, i: int, lock: Option<EnemyId>) -> bool {
    match lock {
        Some(e) => 0 <= e.0 < w.n_enemies() && (w.engagements@[e.0 as int] matches Some(g) && g.drone_id.0 == i),
        None => forall|j: int|
            0 <= j < w.n_enemies() ==> !(#[trigger] w.engagements@[j] matches Some(g) && g.drone_id.0 == i),
    }
}

/// Decision `t` of the tick that took `w0` to `w1` is what `algo` returns
/// on what the deciding drone sensed in `s`: its own id, the tick, its
/// seeker range, exactly its sensed enemy and friend contacts (those it still
/// holds after the tick if it survives it), and the lock it held at the start
/// of the tick.
pub open spec fn decides_on_sensed<A: TargetingAlgorithm + ?Sized>(
    algo: &A,
    w0: &World,
    w1: &World,
    s: World,
    events: Seq<SimEvent>,
    t: int,
) -> bool {
    let i = w0.live_ids()[t].0 as int;
    exists|v: TargetingView|
        {
            &&& #[trigger] rule_returns(algo, v, events[t])
            &&& v.self_id == w0.live_ids()[t]
            &&& v.tick == w0.tick
            &&& v.detection_range == w0.drones@[i].detection_range
            &&& v.targets == s.drones@[i].nearby_targets()
            &&& v.drones == s.drones@[i].nearby_drones()
            &&& (w1.drone_live(i) ==> v.targets == w1.drones@[i].nearby_targets() && v.drones
                == w1.drones@[i].nearby_drones())
            &&& holds_start_lock(w0, i, v.current_engagement)
        }
}

/// What a targeting rule is handed: each live drone asks its rule on its own
/// id, the tick, its seeker range, exactly the enemy and friend contacts it
/// sensed this tick (those it still holds after the tick if it survives it),
/// and the enemy it held a lock on at the start of the tick, or none; its
/// decision is what the rule returns on that.
pub proof fn law_rule_sees_what_drone_sensed<A: TargetingAlgorithm + ?Sized>(
    algo: &A,
    w0: &World,
    w1: &World,
    dist: &DistanceTable,
    events: Seq<SimEvent>,
)
    requires
        w0.wf(),
        w0.stepped(algo, w1, dist, events),
    ensures
        exists|s: World|
            #![trigger w0.sensed(&s, dist)]
            {
                &&& w0.sensed(&s, dist)
                &&& forall|t: int|
                    0 <= t < w0.live_ids().len() ==> #[trigger] decides_on_sensed(algo, w0, w1, s, events, t)
            },
{
    let (s, d, decisions) = choose|s: World, d: World, decisions: Seq<SimEvent>|
        #![trigger s.decided(algo, &d, dist, decisions)]
        {
            &&& w0.sensed(&s, dist)
            &&& s.wf()
            &&& s.decided(algo, &d, dist, decisions)
            &&& d.wf()
            &&& d.progressed(w1, dist)
            &&& events == decisions + d.progress_events(dist, d.n_enemies() as int)
        };
    assert forall|k: int| 0 <= k < w0.n_drones() implies (#[trigger] w0.drones@[k]).state == s.drones@[k].state by {
        assert(s.drones@[k].state == w0.drones@[k].state);
    }
    lemma_live_ids_same(w0, &s, w0.n_drones() as int);
    crate::world::lemma_live_ids_bound(w0, w0.n_drones() as int);
    assert forall|t: int| 0 <= t < w0.live_ids().len() implies #[trigger] decides_on_sensed(algo, w0, w1, s, events, t) by {
        let id = w0.live_ids()[t];
        let i = id.0 as int;
        assert(w0.drone_live((#[trigger] w0.live_ids_upto(w0.n_drones() as int)[t]).0 as int));
        assert(0 <= i < w0.n_drones());
        assert(events[t] == decisions[t]);
        let v = s.decision_input(i);
        assert(rule_returns(algo, v, events[t]));
        assert(v.self_id == id);
        assert(s.drones@[i].detection_range == w0.drones@[i].detection_range);
        if w1.drone_live(i) {
            assert(d.drone_progressed(w1, dist, i));
            if d.kills_now(dist, i) {
                assert(w1.drones@[i].state is Expended);
            }
            assert(w1.drones@[i] == d.drones@[i]);
        }
        match s.lock_of(i) {
            Some(j) => {
                s.lemma_lock_of_holds(i);
                assert(s.engagements@[j] == w0.engagements@[j]);
            },
            None => {
                assert forall|j: int| 0 <= j < w0.n_enemies() implies !(#[trigger] w0.engagements@[j] matches Some(g)
                    && g.drone_id.0 == i) by {
                    assert(s.engagements@[j] == w0.engagements@[j]);
                    if w0.engagements@[j] matches Some(g) && g.drone_id.0 == i {
                        assert(s.holds(i, j));
                    }
                }
            },
        }
    }
    assert(w0.sensed(&s, dist));
}

/// A lock given up while progressing is reported among the progress events.
proof fn lemma_abort_reported(w: &World, dist: &DistanceTable, m: int, j: int)
    requires
        0 <= j < m,
        w.engagements@[j] is Some,
        w.lock_aborts(dist, j),
    ensures
        w.progress_events(dist, m).contains(
            SimEvent::EngagementAborted {
                tick: w.tick,
                drone: w.engagements@[j]->0.drone_id,
                enemy: EnemyId(j as u32),
                reason: AbortReason::OutOfRange,
            },
        ),
    decreases m,
{
    let ev = SimEvent::EngagementAborted {
        tick: w.tick,
        drone: w.engagements@[j]->0.drone_id,
        enemy: EnemyId(j as u32),
        reason: AbortReason::OutOfRange,
    };
    let prev = w.progress_events(dist, m - 1);
    let all = w.progress_events(dist, m);
    if j < m - 1 {
        lemma_abort_reported(w, dist, m - 1, j);
        let t = choose|t: int| 0 <= t < prev.len() && prev[t] == ev;
        assert(all[t] == ev);
    } else {
        assert(all[prev.len() as int] == ev);
    }
}

/// A lock held at the start of a tick on an enemy outside its holder's
/// seeker range (IEEE `distance > range`) is released on that tick: the
/// enemy is left unlocked and as it was, the holder ends the tick live and
/// holding no lock (free to lock on another enemy), and the abort is
/// reported.
pub proof fn law_out_of_range_lock_released<A: TargetingAlgorithm + ?Sized>(
    algo: &A,
    w0: &World,
    w1: &World,
    dist: &DistanceTable,
    events: Seq<SimEvent>,
    j: int,
)
    requires
        w0.wf(),
        w0.stepped(algo, w1, dist, events),
        0 <= j < w0.n_enemies(),
        w0.engagements@[j] is Some,
        f64_lt(
            w0.drones@[w0.engagements@[j]->0.drone_id.0 as int].detection_range,
            dist.enemy_dist(w0.engagements@[j]->0.drone_id.0 as int, j),
        ),
    ensures
        ({
            let holder = w0.engagements@[j]->0.drone_id;
            &&& w1.engagements@[j] is None
            &&& w1.enemies@[j] == w0.enemies@[j]
            &&& w1.drones@[holder.0 as int].state == DroneState::Live
            &&& forall|k: int|
                0 <= k < w1.n_enemies() ==> !(#[trigger] w1.engagements@[k] matches Some(g) && g.drone_id == holder)
            &&& events.contains(
                SimEvent::EngagementAborted {
                    tick: w0.tick,
                    drone: holder,
                    enemy: EnemyId(j as u32),
                    reason: AbortReason::OutOfRange,
                },
            )
        }),
{
    let (s, d, decisions) = choose|s: World, d: World, decisions: Seq<SimEvent>|
        #![trigger s.decided(algo, &d, dist, decisions)]
        {
            &&& w0.sensed(&s, dist)
            &&& s.wf()
            &&& s.decided(algo, &d, dist, decisions)
            &&& d.wf()
            &&& d.progressed(w1, dist)
            &&& events == decisions + d.progress_events(dist, d.n_enemies() as int)
        };
    let holder = w0.engagements@[j]->0.drone_id;
    let h = holder.0 as int;
    assert(s.engagements@[j] == w0.engagements@[j]);
    assert(d.engagements@[j] == s.engagements@[j]);
    assert(s.drones@[h].detection_range == w0.drones@[h].detection_range);
    assert(d.drones@[h].detection_range == s.drones@[h].detection_range);
    assert(s.drones@[h].state == w0.drones@[h].state);
    assert(d.drones@[h].state == s.drones@[h].state);
    assert(d.lock_aborts(dist, j));
    assert(d.enemy_progressed(w1, dist, j));
    assert(d.enemies@ == w0.enemies@);
    assert forall|k: int| 0 <= k < w1.n_enemies() implies !(#[trigger] w1.engagements@[k] matches Some(g) && g.drone_id == holder) by {
        assert(d.enemy_progressed(w1, dist, k));
        if k != j && d.engagements@[k] is Some {
            assert(d.engagements@[j] is Some);
        }
    }
    d.lemma_lock_of(h, j);
    assert(!d.kills_now(dist, h));
    assert(d.drone_progressed(w1, dist, h));
    lemma_abort_reported(&d, dist, d.n_enemies() as int, j);
    let pe = d.progress_events(dist, d.n_enemies() as int);
    let ev = SimEvent::EngagementAborted {
        tick: w0.tick,
        drone: holder,
        enemy: EnemyId(j as u32),
        reason: AbortReason::OutOfRange,
    };
    let t = choose|t: int| 0 <= t < pe.len() && pe[t] == ev;
    assert(events[decisions.len() + t] == ev);
}

/// A lock held at the start of a tick on an enemy within its holder's
/// seeker range (not IEEE `distance > range`) becomes a kill on that tick
/// once it has been held for `kill_ticks` ticks: the enemy is neutralized by
/// the holder at this tick, the lock is gone and the holder is expended at
/// this tick. Held for less, the lock is kept as it was and the enemy stays
/// alive.
pub proof fn law_in_range_lock_progress<A: TargetingAlgorithm + ?Sized>(
    algo: &A,
    w0: &World,
    w1: &World,
    dist: &DistanceTable,
    events: Seq<SimEvent>,
    j: int,
)
    requires
        w0.wf(),
        w0.stepped(algo, w1, dist, events),
        0 <= j < w0.n_enemies(),
        w0.engagements@[j] is Some,
        !f64_lt(
            w0.drones@[w0.engagements@[j]->0.drone_id.0 as int].detection_range,
            dist.enemy_dist(w0.engagements@[j]->0.drone_id.0 as int, j),
        ),
    ensures
        ({
            let e = w0.engagements@[j]->0;
            let h = e.drone_id.0 as int;
            if w0.tick - e.started_tick >= w0.kill_ticks {
                &&& w1.enemies@[j].state == (EnemyState::Neutralized { at_tick: w0.tick, by: e.drone_id })
                &&& w1.engagements@[j] is None
                &&& w1.drones@[h].state == (DroneState::Expended { at_tick: w0.tick })
            } else {
                &&& w1.engagements@[j] == w0.engagements@[j]
                &&& w1.enemies@[j] == w0.enemies@[j]
                &&& w1.enemies@[j].state == EnemyState::Alive
            }
        }),
{
    let (s, d, decisions) = choose|s: World, d: World, decisions: Seq<SimEvent>|
        #![trigger s.decided(algo, &d, dist, decisions)]
        {
            &&& w0.sensed(&s, dist)
            &&& s.wf()
            &&& s.decided(algo, &d, dist, decisions)
            &&& d.wf()
            &&& d.progressed(w1, dist)
            &&& events == decisions + d.progress_events(dist, d.n_enemies() as int)
        };
    let e = w0.engagements@[j]->0;
    let h = e.drone_id.0 as int;
    assert(s.engagements@[j] == w0.engagements@[j]);
    assert(d.engagements@[j] == s.engagements@[j]);
    assert(s.drones@[h].detection_range == w0.drones@[h].detection_range);
    assert(d.drones@[h].detection_range == s.drones@[h].detection_range);
    assert(d.enemies@ == w0.enemies@);
    assert(w0.enemy_alive(j));
    assert(!d.lock_aborts(dist, j));
    assert(d.enemy_progressed(w1, dist, j));
    if w0.tick - e.started_tick >= w0.kill_ticks {
        assert(d.lock_kills(dist, j));
        d.lemma_lock_of(h, j);
        assert(d.kills_now(dist, h));
        assert(d.drone_progressed(w1, dist, h));
    }
}

} // verus!
