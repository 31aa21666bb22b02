//! The discrete core of a round: who is alive, who holds which lock, what
//! each drone senses and decides, and when a lock becomes a kill.
//!
//! Positions and their motion are real-valued and stay with the caller, who
//! hands each tick the distances between everything on the field as the bit
//! patterns of their `f64` values (see `order`). Every decision here depends
//! on positions only through comparisons of those distances, made as `f64`
//! makes them.
use vstd::prelude::*;
use crate::algorithm::{SelectResult, TargetingAlgorithm, TargetingInput, TargetingView};
use crate::contact::{
    drone_slots, keep_nearest_drones, keep_nearest_targets, keeps_nearest, target_slots,
    DroneContact, TargetContact, MAX_DRONE_CONTACTS, MAX_TARGET_CONTACTS,
};
use crate::drone::{Drone, DroneState};
use crate::enemy::{Enemy, EnemyState};
use crate::ids::{DroneId, EnemyId};
use crate::order::{f64_le, f64_lt, le, lt};

verus! {

#[derive(Clone, Copy, Debug, PartialEq, Eq, Structural)]
pub struct Engagement {
    pub drone_id: DroneId,
    pub enemy_id: EnemyId,
    pub started_tick: u64,
}

/// Why a lock was given up: the enemy left the drone's seeker range. Under
/// exclusive locks a lock on a dead enemy cannot occur; it too would be
/// reported as out of range.
#[derive(Clone, Copy, Debug, PartialEq, Eq, Structural)]
pub enum AbortReason {
    OutOfRange,
}

#[derive(Clone, Copy, Debug, PartialEq, Eq, Structural)]
pub enum SimEvent {
    Decision { tick: u64, drone: DroneId, target: Option<EnemyId>, compute_ops: u64 },
    Neutralized { tick: u64, enemy: EnemyId, by: DroneId },
    EngagementAborted { tick: u64, drone: DroneId, enemy: EnemyId, reason: AbortReason },
}

#[derive(Clone, Copy, Debug, PartialEq, Eq, Structural)]
pub enum NeutralizeError {
    TargetNotFound,
    TargetAlreadyDead,
    OutOfRange,
    LockedByOther { owner: DroneId },
    DroneBusy { current: EnemyId },
    DroneExpended,
    DroneNotFound,
}

/// The distances on the field at one tick, as `f64` bit patterns (see `order`):
/// `to_enemies[i][j]` from drone `i` to enemy `j`, `to_drones[i][k]` from
/// drone `i` to drone `k`.
pub struct DistanceTable {
    pub to_enemies: Vec<Vec<u64>>,
    pub to_drones: Vec<Vec<u64>>,
}

impl DistanceTable {
    pub open spec fn enemy_dist(&self, i: int, j: int) -> u64 {
        self.to_enemies@[i]@[j]
    }

    pub open spec fn drone_dist(&self, i: int, k: int) -> u64 {
        self.to_drones@[i]@[k]
    }

    /// A table for `n_drones` drones and `n_enemies` enemies.
    pub open spec fn fits(&self, n_drones: nat, n_enemies: nat) -> bool {
        &&& self.to_enemies@.len() == n_drones
        &&& self.to_drones@.len() == n_drones
        &&& forall|i: int| 0 <= i < n_drones ==> #[trigger] self.to_enemies@[i]@.len() == n_enemies
        &&& forall|i: int| 0 <= i < n_drones ==> #[trigger] self.to_drones@[i]@.len() == n_drones
    }
}

/// The state of a round. Drones and enemies are numbered by their position
/// in the lists; `engagements[j]` is the lock on enemy `j`, if any. A lock
/// is exclusive: one drone per enemy and one enemy per drone.
pub struct World {
    pub tick: u64,
    pub kill_ticks: u64,
    pub drones: Vec<Drone>,
    pub enemies: Vec<Enemy>,
    pub engagements: Vec<Option<Engagement>>,
}

impl World {
    pub open spec fn n_drones(&self) -> nat {
        self.drones@.len()
    }

    pub open spec fn n_enemies(&self) -> nat {
        self.enemies@.len()
    }

    pub open spec fn drone_live(&self, i: int) -> bool {
        self.drones@[i].state == DroneState::Live
    }

    pub open spec fn enemy_alive(&self, j: int) -> bool {
        self.enemies@[j].state == EnemyState::Alive
    }

    /// The drone holding the lock on enemy `j`, if any.
    pub open spec fn lock_owner(&self, j: int) -> Option<DroneId> {
        match self.engagements@[j] {
            Some(e) => Some(e.drone_id),
            None => None,
        }
    }

    /// Drone `i` holds the lock on enemy `j`.
    pub open spec fn holds(&self, i: int, j: int) -> bool {
        self.engagements@[j] matches Some(e) && e.drone_id.0 == i
    }

    /// The state is well formed.
    pub open spec fn wf(&self) -> bool {
        &&& self.n_drones() <= u32::MAX
        &&& self.n_enemies() <= u32::MAX
        &&& self.engagements@.len() == self.n_enemies()
        &&& forall|i: int| 0 <= i < self.n_drones() ==> (#[trigger] self.drones@[i]).id.0 == i
        &&& forall|j: int| 0 <= j < self.n_enemies() ==> (#[trigger] self.enemies@[j]).id.0 == j
        &&& forall|i: int|
            0 <= i < self.n_drones() ==> {
                &&& (#[trigger] self.drones@[i]).nearby_targets().len() <= MAX_TARGET_CONTACTS
                &&& self.drones@[i].nearby_drones().len() <= MAX_DRONE_CONTACTS
            }
        // Expended drones keep no contacts.
        &&& forall|i: int|
            0 <= i < self.n_drones() && !self.drone_live(i) ==> {
                &&& (#[trigger] self.drones@[i]).nearby_targets().len() == 0
                &&& self.drones@[i].nearby_drones().len() == 0
            }
        // A lock names its enemy, is held by a live drone on an alive enemy,
        // and started no later than now.
        &&& forall|j: int|
            0 <= j < self.n_enemies() && #[trigger] self.engagements@[j] is Some ==> {
                let e = self.engagements@[j]->0;
                &&& e.enemy_id.0 == j
                &&& e.drone_id.0 < self.n_drones()
                &&& self.drone_live(e.drone_id.0 as int)
                &&& self.enemy_alive(j)
                &&& e.started_tick <= self.tick
            }
        // A drone holds at most one lock.
        &&& forall|j1: int, j2: int|
            0 <= j1 < self.n_enemies() && 0 <= j2 < self.n_enemies() && j1 != j2
                && #[trigger] self.engagements@[j1] is Some && #[trigger] self.engagements@[j2] is Some
                ==> self.engagements@[j1]->0.drone_id != self.engagements@[j2]->0.drone_id
        // A neutralized enemy was killed by a drone that expended itself on it
        // at the same tick, no later than now.
        &&& forall|j: int|
            0 <= j < self.n_enemies() && #[trigger] self.enemies@[j].state is Neutralized ==> {
                let by = self.enemies@[j].state->by;
                let at = self.enemies@[j].state->at_tick;
                &&& by.0 < self.n_drones()
                &&& self.drones@[by.0 as int].state == (DroneState::Expended { at_tick: at })
                &&& at <= self.tick
            }
        // A drone is expended only on a kill: some enemy was neutralized by
        // it on the tick it was expended.
        &&& forall|i: int|
            0 <= i < self.n_drones() && (#[trigger] self.drones@[i]).state is Expended ==> exists|j: int|
                0 <= j < self.n_enemies() && (#[trigger] self.enemies@[j]).state == (EnemyState::Neutralized {
                    at_tick: self.drones@[i].state->at_tick,
                    by: DroneId(i as u32),
                })
        // Each drone kills at most one enemy.
        &&& forall|j1: int, j2: int|
            0 <= j1 < self.n_enemies() && 0 <= j2 < self.n_enemies() && j1 != j2
                && #[trigger] self.enemies@[j1].state is Neutralized
                && #[trigger] self.enemies@[j2].state is Neutralized
                ==> self.enemies@[j1].state->by != self.enemies@[j2].state->by
    }

    /// A fresh round: `n_drones` live drones numbered in formation order, all
    /// with the same seeker range, and `n_enemies` alive enemies, no lock,
    /// tick 0.
    pub fn new(n_drones: u32, n_enemies: u32, detection_range: u64, kill_ticks: u64) -> (w: Self)
        ensures
            w.wf(),
            w.tick == 0,
            w.kill_ticks == kill_ticks,
            w.n_drones() == n_drones,
            w.n_enemies() == n_enemies,
            forall|i: int|
                0 <= i < n_drones ==> {
                    &&& (#[trigger] w.drones@[i]).state == DroneState::Live
                    &&& w.drones@[i].detection_range == detection_range
                    &&& w.drones@[i].nearby_targets().len() == 0
                    &&& w.drones@[i].nearby_drones().len() == 0
                    &&& w.drones@[i].spec_last_ops() == 0
                },
            forall|j: int|
                0 <= j < n_enemies ==> (#[trigger] w.enemies@[j]) == (Enemy {
                    id: EnemyId(j as u32),
                    spawn_tick: 0,
                    state: EnemyState::Alive,
                }),
            forall|j: int| 0 <= j < n_enemies ==> #[trigger] w.engagements@[j] is None,
    {
        let mut enemies: Vec<Enemy> = Vec::new();
        let mut engagements: Vec<Option<Engagement>> = Vec::new();
        for j in 0..n_enemies
            invariant
                enemies@.len() == j,
                engagements@.len() == j,
                forall|k: int|
                    0 <= k < j ==> (#[trigger] enemies@[k]) == (Enemy {
                        id: EnemyId(k as u32),
                        spawn_tick: 0,
                        state: EnemyState::Alive,
                    }),
                forall|k: int| 0 <= k < j ==> #[trigger] engagements@[k] is None,
        {
            enemies.push(Enemy::new(EnemyId(j)));
            engagements.push(None);
        }
        let mut drones: Vec<Drone> = Vec::new();
        for i in 0..n_drones
            invariant
                drones@.len() == i,
                forall|k: int|
                    0 <= k < i ==> {
                        &&& (#[trigger] drones@[k]).id.0 == k
                        &&& drones@[k].state == DroneState::Live
                        &&& drones@[k].detection_range == detection_range
                        &&& drones@[k].nearby_targets().len() == 0
                        &&& drones@[k].nearby_drones().len() == 0
                        &&& drones@[k].spec_last_ops() == 0
                    },
        {
            drones.push(Drone::new(DroneId(i), detection_range));
        }
        World { tick: 0, kill_ticks, drones, enemies, engagements }
    }

    pub fn drones(&self) -> (r: &[Drone])
        ensures
            r@ == self.drones@,
    {
        self.drones.as_slice()
    }

    pub fn enemies(&self) -> (r: &[Enemy])
        ensures
            r@ == self.enemies@,
    {
        self.enemies.as_slice()
    }

    /// The drone with this id.
    pub fn drone(&self, id: DroneId) -> (r: Option<&Drone>)
        requires
            self.wf(),
        ensures
            match r {
                Some(d) => id.0 < self.n_drones() && *d == self.drones@[id.0 as int],
                None => id.0 >= self.n_drones(),
            },
    {
        if (id.0 as usize) < self.drones.len() {
            Some(&self.drones[id.0 as usize])
        } else {
            None
        }
    }

    /// The enemy drone `id` holds a lock on, if any.
    pub fn engagement_of(&self, id: DroneId) -> (r: Option<EnemyId>)
        requires
            self.wf(),
        ensures
            match r {
                Some(e) => e.0 < self.n_enemies() && self.holds(id.0 as int, e.0 as int),
                None => forall|j: int| 0 <= j < self.n_enemies() ==> !self.holds(id.0 as int, j),
            },
    {
        let n = self.engagements.len();
        for j in 0..n
            invariant
                self.wf(),
                n == self.n_enemies(),
                forall|k: int| 0 <= k < j ==> !self.holds(id.0 as int, k),
        {
            match self.engagements[j] {
                Some(e) => {
                    if e.drone_id.0 == id.0 {
                        return Some(e.enemy_id);
                    }
                },
                None => {},
            }
        }
        None
    }

    /// What drone `i` senses of the first `m` enemies: each alive one within
    /// its seeker range, in enemy order, tagged with the drone that holds the
    /// lock on it at sensing time.
    pub open spec fn target_candidates_upto(&self, dist: &DistanceTable, i: int, m: int) -> Seq<
        TargetContact,
    >
        decreases m,
    {
        if m <= 0 {
            Seq::empty()
        } else {
            let prev = self.target_candidates_upto(dist, i, m - 1);
            let j = m - 1;
            if self.enemy_alive(j) && f64_le(dist.enemy_dist(i, j), self.drones@[i].detection_range) {
                prev.push(
                    TargetContact {
                        id: EnemyId(j as u32),
                        distance: dist.enemy_dist(i, j),
                        engaged_by: self.lock_owner(j),
                    },
                )
            } else {
                prev
            }
        }
    }

    pub open spec fn target_candidates(&self, dist: &DistanceTable, i: int) -> Seq<TargetContact> {
        self.target_candidates_upto(dist, i, self.n_enemies() as int)
    }

    /// What drone `i` senses of the first `m` drones: each other live drone
    /// within its seeker range, in id order.
    pub open spec fn friend_candidates_upto(&self, dist: &DistanceTable, i: int, m: int) -> Seq<
        DroneContact,
    >
        decreases m,
    {
        if m <= 0 {
            Seq::empty()
        } else {
            let prev = self.friend_candidates_upto(dist, i, m - 1);
            let k = m - 1;
            if k != i && self.drone_live(k) && f64_le(dist.drone_dist(i, k), self.drones@[i].detection_range) {
                prev.push(DroneContact { id: DroneId(k as u32), distance: dist.drone_dist(i, k) })
            } else {
                prev
            }
        }
    }

    pub open spec fn friend_candidates(&self, dist: &DistanceTable, i: int) -> Seq<DroneContact> {
        self.friend_candidates_upto(dist, i, self.n_drones() as int)
    }

    /// `after` is `self` with every live drone's contacts replaced by what it
    /// senses: the nearest `MAX_TARGET_CONTACTS` target candidates and the
    /// nearest `MAX_DRONE_CONTACTS` friend candidates. Nothing else changes.
    pub open spec fn sensed(&self, after: &World, dist: &DistanceTable) -> bool {
        &&& after.tick == self.tick
        &&& after.kill_ticks == self.kill_ticks
        &&& after.enemies@ == self.enemies@
        &&& after.engagements@ == self.engagements@
        &&& after.n_drones() == self.n_drones()
        &&& forall|i: int|
            0 <= i < self.n_drones() ==> {
                &&& (#[trigger] after.drones@[i]).id == self.drones@[i].id
                &&& after.drones@[i].detection_range == self.drones@[i].detection_range
                &&& after.drones@[i].state == self.drones@[i].state
                &&& after.drones@[i].spec_last_ops() == self.drones@[i].spec_last_ops()
                &&& if self.drone_live(i) {
                    &&& keeps_nearest(
                        after.drones@[i].nearby_targets(),
                        self.target_candidates(dist, i),
                        MAX_TARGET_CONTACTS as nat,
                    )
                    &&& keeps_nearest(
                        after.drones@[i].nearby_drones(),
                        self.friend_candidates(dist, i),
                        MAX_DRONE_CONTACTS as nat,
                    )
                } else {
                    &&& after.drones@[i].nearby_targets() == self.drones@[i].nearby_targets()
                    &&& after.drones@[i].nearby_drones() == self.drones@[i].nearby_drones()
                }
            }
    }

    fn sense_targets(&self, dist: &DistanceTable, i: usize) -> (r: Vec<TargetContact>)
        requires
            self.wf(),
            dist.fits(self.n_drones(), self.n_enemies()),
            i < self.n_drones(),
        ensures
            r@ == self.target_candidates(dist, i as int),
    {
        let mut out: Vec<TargetContact> = Vec::new();
        let m = self.enemies.len();
        let range = self.drones[i].detection_range;
        for j in 0..m
            invariant
                self.wf(),
                dist.fits(self.n_drones(), self.n_enemies()),
                i < self.n_drones(),
                m == self.n_enemies(),
                range == self.drones@[i as int].detection_range,
                out@ == self.target_candidates_upto(dist, i as int, j as int),
        {
            let d = dist.to_enemies[i][j];
            if self.enemies[j].is_alive() && le(d, range) {
                let engaged_by = match self.engagements[j] {
                    Some(e) => Some(e.drone_id),
                    None => None,
                };
                out.push(TargetContact { id: EnemyId(j as u32), distance: d, engaged_by });
            }
        }
        out
    }

    fn sense_friends(&self, dist: &DistanceTable, i: usize) -> (r: Vec<DroneContact>)
        requires
            self.wf(),
            dist.fits(self.n_drones(), self.n_enemies()),
            i < self.n_drones(),
        ensures
            r@ == self.friend_candidates(dist, i as int),
    {
        let mut out: Vec<DroneContact> = Vec::new();
        let n = self.drones.len();
        let range = self.drones[i].detection_range;
        for k in 0..n
            invariant
                self.wf(),
                dist.fits(self.n_drones(), self.n_enemies()),
                i < self.n_drones(),
                n == self.n_drones(),
                range == self.drones@[i as int].detection_range,
                out@ == self.friend_candidates_upto(dist, i as int, k as int),
        {
            let d = dist.to_drones[i][k];
            if k != i && self.drones[k].is_live() && le(d, range) {
                out.push(DroneContact { id: DroneId(k as u32), distance: d });
            }
        }
        out
    }

    /// Every live drone senses the field (see `sensed`). Lock owners are
    /// read before any decision of this tick.
    pub fn sense_all(&mut self, dist: &DistanceTable)
        requires
            old(self).wf(),
            dist.fits(old(self).n_drones(), old(self).n_enemies()),
        ensures
            final(self).wf(),
            old(self).sensed(final(self), dist),
    {
        let ghost before = *self;
        let n = self.drones.len();
        for i in 0..n
            invariant
                self.wf(),
                before.wf(),
                n == self.n_drones(),
                dist.fits(before.n_drones(), before.n_enemies()),
                self.tick == before.tick,
                self.kill_ticks == before.kill_ticks,
                self.enemies@ == before.enemies@,
                self.engagements@ == before.engagements@,
                self.n_drones() == before.n_drones(),
                forall|k: int|
                    0 <= k < n ==> {
                        &&& (#[trigger] self.drones@[k]).id == before.drones@[k].id
                        &&& self.drones@[k].detection_range == before.drones@[k].detection_range
                        &&& self.drones@[k].state == before.drones@[k].state
                        &&& self.drones@[k].spec_last_ops() == before.drones@[k].spec_last_ops()
                    },
                forall|k: int|
                    i <= k < n ==> {
                        &&& (#[trigger] self.drones@[k]).nearby_targets()
                            == before.drones@[k].nearby_targets()
                        &&& self.drones@[k].nearby_drones() == before.drones@[k].nearby_drones()
                    },
                forall|k: int|
                    0 <= k < i ==> if before.drone_live(k) {
                        &&& keeps_nearest(
                            (#[trigger] self.drones@[k]).nearby_targets(),
                            before.target_candidates(dist, k),
                            MAX_TARGET_CONTACTS as nat,
                        )
                        &&& keeps_nearest(
                            self.drones@[k].nearby_drones(),
                            before.friend_candidates(dist, k),
                            MAX_DRONE_CONTACTS as nat,
                        )
                    } else {
                        &&& self.drones@[k].nearby_targets() == before.drones@[k].nearby_targets()
                        &&& self.drones@[k].nearby_drones() == before.drones@[k].nearby_drones()
                    },
        {
            if self.drones[i].is_live() {
                let cands = self.sense_targets(dist, i);
                let friends = self.sense_friends(dist, i);
                proof {
                    lemma_candidates_same(&before, self, dist, i as int);
                }
                let kept_targets = keep_nearest_targets(cands);
                let kept_friends = keep_nearest_drones(friends);
                self.drones[i].set_contacts(kept_targets, kept_friends);
            }
        }
    }

    /// The index of the enemy drone `i` holds a lock on, if any.
    pub open spec fn lock_of(&self, i: int) -> Option<int> {
        if exists|j: int| 0 <= j < self.n_enemies() && self.holds(i, j) {
            Some(choose|j: int| 0 <= j < self.n_enemies() && self.holds(i, j))
        } else {
            None
        }
    }

    /// What `try_acquire` answers drone `drone` asking for a lock on `enemy`,
    /// checking in this order: the drone exists, is live and holds no lock;
    /// the enemy exists, is alive, is within the drone's seeker range and is
    /// not locked.
    pub open spec fn acquire_outcome(&self, dist: &DistanceTable, drone: DroneId, enemy: EnemyId) -> Result<
        (),
        NeutralizeError,
    > {
        let i = drone.0 as int;
        let j = enemy.0 as int;
        if i >= self.n_drones() {
            Err(NeutralizeError::DroneNotFound)
        } else if !self.drone_live(i) {
            Err(NeutralizeError::DroneExpended)
        } else if self.lock_of(i) is Some {
            Err(NeutralizeError::DroneBusy { current: EnemyId(self.lock_of(i)->0 as u32) })
        } else if j >= self.n_enemies() {
            Err(NeutralizeError::TargetNotFound)
        } else if !self.enemy_alive(j) {
            Err(NeutralizeError::TargetAlreadyDead)
        } else if f64_lt(self.drones@[i].detection_range, dist.enemy_dist(i, j)) {
            Err(NeutralizeError::OutOfRange)
        } else if self.engagements@[j] is Some {
            Err(NeutralizeError::LockedByOther { owner: self.engagements@[j]->0.drone_id })
        } else {
            Ok(())
        }
    }

    /// Drone `drone` tries to lock on to enemy `enemy` at tick `tick` (see
    /// `acquire_outcome`). On success the lock starts now; on failure nothing
    /// changes.
    pub fn try_acquire(&mut self, drone: DroneId, enemy: EnemyId, tick: u64, dist: &DistanceTable) -> (r: Result<
        (),
        NeutralizeError,
    >)
        requires
            old(self).wf(),
            tick == old(self).tick,
            dist.fits(old(self).n_drones(), old(self).n_enemies()),
        ensures
            final(self).wf(),
            r == old(self).acquire_outcome(dist, drone, enemy),
            final(self).tick == old(self).tick,
            final(self).kill_ticks == old(self).kill_ticks,
            final(self).drones@ == old(self).drones@,
            final(self).enemies@ == old(self).enemies@,
            final(self).engagements@ == if r is Ok {
                old(self).engagements@.update(
                    enemy.0 as int,
                    Some(Engagement { drone_id: drone, enemy_id: enemy, started_tick: tick }),
                )
            } else {
                old(self).engagements@
            },
    {
        let i = drone.0 as usize;
        let j = enemy.0 as usize;
        if i >= self.drones.len() {
            return Err(NeutralizeError::DroneNotFound);
        }
        if !self.drones[i].is_live() {
            return Err(NeutralizeError::DroneExpended);
        }
        match self.engagement_of(drone) {
            Some(current) => {
                proof {
                    self.lemma_lock_of(i as int, current.0 as int);
                }
                return Err(NeutralizeError::DroneBusy { current });
            },
            None => {},
        }
        assert(self.lock_of(i as int) is None);
        if j >= self.enemies.len() {
            return Err(NeutralizeError::TargetNotFound);
        }
        if !self.enemies[j].is_alive() {
            return Err(NeutralizeError::TargetAlreadyDead);
        }
        if lt(self.drones[i].detection_range, dist.to_enemies[i][j]) {
            return Err(NeutralizeError::OutOfRange);
        }
        match self.engagements[j] {
            Some(eng) => {
                return Err(NeutralizeError::LockedByOther { owner: eng.drone_id });
            },
            None => {},
        }
        let ghost before = *self;
        self.engagements.set(j, Some(Engagement { drone_id: drone, enemy_id: enemy, started_tick: tick }));
        proof {
            assert(self.engagements@ == before.engagements@.update(j as int, Some(Engagement { drone_id: drone, enemy_id: enemy, started_tick: tick })));
            assert forall|j1: int, j2: int|
                0 <= j1 < self.n_enemies() && 0 <= j2 < self.n_enemies() && j1 != j2
                    && #[trigger] self.engagements@[j1] is Some && #[trigger] self.engagements@[j2] is Some
                    implies self.engagements@[j1]->0.drone_id != self.engagements@[j2]->0.drone_id by {
                if j1 == j as int {
                    assert(!before.holds(i as int, j2));
                } else if j2 == j as int {
                    assert(!before.holds(i as int, j1));
                }
            }
        }
        Ok(())
    }

    /// The lock `lock_of` names is held.
    pub proof fn lemma_lock_of_holds(&self, i: int)
        requires
            self.lock_of(i) is Some,
        ensures
            0 <= self.lock_of(i)->0 < self.n_enemies(),
            self.holds(i, self.lock_of(i)->0),
    {
    }

    /// The lock drone `i` holds is the one on enemy `j`.
    pub proof fn lemma_lock_of(&self, i: int, j: int)
        requires
            self.wf(),
            0 <= j < self.n_enemies(),
            self.holds(i, j),
        ensures
            self.lock_of(i) == Some(j),
    {
        let k = choose|k: int| 0 <= k < self.n_enemies() && self.holds(i, k);
        if k != j {
            assert(self.engagements@[k] is Some && self.engagements@[j] is Some);
        }
    }

    /// What `complete_neutralization` answers drone `drone` finishing enemy
    /// `enemy`, checking in this order: the drone exists and is live; the
    /// enemy is locked, by this drone; it is alive and within range.
    pub open spec fn neutralize_outcome(&self, dist: &DistanceTable, drone: DroneId, enemy: EnemyId) -> Result<
        (),
        NeutralizeError,
    > {
        let i = drone.0 as int;
        let j = enemy.0 as int;
        if i >= self.n_drones() {
            Err(NeutralizeError::DroneNotFound)
        } else if !self.drone_live(i) {
            Err(NeutralizeError::DroneExpended)
        } else if j >= self.n_enemies() || self.engagements@[j] is None {
            Err(NeutralizeError::TargetNotFound)
        } else if self.engagements@[j]->0.drone_id != drone {
            Err(NeutralizeError::LockedByOther { owner: self.engagements@[j]->0.drone_id })
        } else if !self.enemy_alive(j) {
            Err(NeutralizeError::TargetAlreadyDead)
        } else if f64_lt(self.drones@[i].detection_range, dist.enemy_dist(i, j)) {
            Err(NeutralizeError::OutOfRange)
        } else {
            Ok(())
        }
    }

    /// `after` is `self` once drone `i` has killed enemy `j` at the current
    /// tick: the enemy is neutralized by it, the lock is gone, the drone is
    /// expended and keeps no contacts.
    pub open spec fn killed(&self, after: &World, i: int, j: int) -> bool {
        &&& after.tick == self.tick
        &&& after.kill_ticks == self.kill_ticks
        &&& after.n_drones() == self.n_drones()
        &&& after.n_enemies() == self.n_enemies()
        &&& after.engagements@ == self.engagements@.update(j, None)
        &&& after.enemies@ == self.enemies@.update(
            j,
            Enemy {
                state: EnemyState::Neutralized { at_tick: self.tick, by: DroneId(i as u32) },
                ..self.enemies@[j]
            },
        )
        &&& forall|k: int|
            0 <= k < self.n_drones() && k != i ==> #[trigger] after.drones@[k] == self.drones@[k]
        &&& after.drones@[i].id == self.drones@[i].id
        &&& after.drones@[i].detection_range == self.drones@[i].detection_range
        &&& after.drones@[i].spec_last_ops() == self.drones@[i].spec_last_ops()
        &&& after.drones@[i].state == (DroneState::Expended { at_tick: self.tick })
        &&& after.drones@[i].nearby_targets().len() == 0
        &&& after.drones@[i].nearby_drones().len() == 0
    }

    /// Drone `drone` finishes the enemy `enemy` it holds a lock on (see
    /// `neutralize_outcome`): the enemy is neutralized now, the lock is
    /// released and the drone is expended. On failure nothing changes.
    pub(crate) fn complete_neutralization(&mut self, drone: DroneId, enemy: EnemyId, dist: &DistanceTable) -> (r: Result<
        SimEvent,
        NeutralizeError,
    >)
        requires
            old(self).wf(),
            dist.fits(old(self).n_drones(), old(self).n_enemies()),
        ensures
            final(self).wf(),
            match old(self).neutralize_outcome(dist, drone, enemy) {
                Ok(()) => {
                    &&& r == Ok::<SimEvent, NeutralizeError>(SimEvent::Neutralized { tick: old(self).tick, enemy, by: drone })
                    &&& old(self).killed(final(self), drone.0 as int, enemy.0 as int)
                },
                Err(e) => {
                    &&& r == Err::<SimEvent, NeutralizeError>(e)
                    &&& *final(self) == *old(self)
                },
            },
    {
        let tick = self.tick;
        let i = drone.0 as usize;
        let j = enemy.0 as usize;
        if i >= self.drones.len() {
            return Err(NeutralizeError::DroneNotFound);
        }
        if !self.drones[i].is_live() {
            return Err(NeutralizeError::DroneExpended);
        }
        if j >= self.engagements.len() {
            return Err(NeutralizeError::TargetNotFound);
        }
        match self.engagements[j] {
            Some(eng) => {
                if eng.drone_id.0 != drone.0 {
                    return Err(NeutralizeError::LockedByOther { owner: eng.drone_id });
                }
            },
            None => {
                return Err(NeutralizeError::TargetNotFound);
            },
        }
        if !self.enemies[j].is_alive() {
            return Err(NeutralizeError::TargetAlreadyDead);
        }
        if lt(self.drones[i].detection_range, dist.to_enemies[i][j]) {
            return Err(NeutralizeError::OutOfRange);
        }
        let ghost before = *self;
        let mut e = self.enemies[j];
        e.state = EnemyState::Neutralized { at_tick: tick, by: drone };
        self.enemies.set(j, e);
        self.engagements.set(j, None);
        self.drones[i].expend(tick);
        proof {
            assert(before.holds(i as int, j as int));
            assert forall|k: int| 0 <= k < self.n_drones() && k != i implies #[trigger] self.drones@[k] == before.drones@[k] by {}
            // The drone held only this lock, so no other lock names it.
            assert forall|k: int| 0 <= k < self.n_enemies() && #[trigger] self.engagements@[k] is Some implies self.engagements@[k]->0.drone_id.0 != i by {
                assert(k != j);
                assert(before.engagements@[k] is Some && before.engagements@[j as int] is Some);
            }
            // It was live, so no earlier kill names it.
            assert forall|k: int| 0 <= k < self.n_enemies() && k != j && #[trigger] self.enemies@[k].state is Neutralized implies self.enemies@[k].state->by.0 != i by {
                assert(before.enemies@[k].state is Neutralized);
            }
            // Every expended drone still has its kill: drone i has this one.
            assert forall|k: int| 0 <= k < self.n_drones() && (#[trigger] self.drones@[k]).state is Expended implies exists|m: int|
                0 <= m < self.n_enemies() && (#[trigger] self.enemies@[m]).state == (EnemyState::Neutralized {
                    at_tick: self.drones@[k].state->at_tick,
                    by: DroneId(k as u32),
                }) by {
                if k == i {
                    assert(self.enemies@[j as int].state == (EnemyState::Neutralized { at_tick: tick, by: drone }));
                    assert(drone == DroneId(k as u32));
                } else {
                    assert(before.drones@[k].state is Expended);
                    let m = choose|m: int| 0 <= m < before.n_enemies() && (#[trigger] before.enemies@[m]).state == (EnemyState::Neutralized {
                        at_tick: before.drones@[k].state->at_tick,
                        by: DroneId(k as u32),
                    });
                    assert(m != j);
                    assert(self.enemies@[m] == before.enemies@[m]);
                }
            }
            assert(self.wf());
        }
        Ok(SimEvent::Neutralized { tick, enemy, by: drone })
    }

    /// The lock on enemy `j` is given up this tick: its enemy is dead (which
    /// well-formedness rules out) or outside the holder's seeker range.
    pub open spec fn lock_aborts(&self, dist: &DistanceTable, j: int) -> bool {
        let i = self.engagements@[j]->0.drone_id.0 as int;
        ||| !self.enemy_alive(j)
        ||| f64_lt(self.drones@[i].detection_range, dist.enemy_dist(i, j))
    }

    /// The lock on enemy `j` has been held for at least `kill_ticks` ticks.
    pub open spec fn lock_due(&self, j: int) -> bool {
        let started = self.engagements@[j]->0.started_tick;
        (if self.tick >= started { self.tick - started } else { 0 }) >= self.kill_ticks
    }

    /// The lock on enemy `j` becomes a kill this tick.
    pub open spec fn lock_kills(&self, dist: &DistanceTable, j: int) -> bool {
        &&& self.engagements@[j] is Some
        &&& !self.lock_aborts(dist, j)
        &&& self.lock_due(j)
    }

    /// Drone `i` makes a kill this tick.
    pub open spec fn kills_now(&self, dist: &DistanceTable, i: int) -> bool {
        &&& self.lock_of(i) is Some
        &&& self.lock_kills(dist, self.lock_of(i)->0)
    }

    /// The events of progressing the locks on the first `m` enemies, in
    /// enemy order: an abort for each lock given up, a kill for each lock
    /// that is due.
    pub open spec fn progress_events(&self, dist: &DistanceTable, m: int) -> Seq<SimEvent>
        decreases m,
    {
        if m <= 0 {
            Seq::empty()
        } else {
            let j = m - 1;
            self.progress_events(dist, m - 1) + match self.engagements@[j] {
                None => Seq::empty(),
                Some(e) => if self.lock_aborts(dist, j) {
                    seq![
                        SimEvent::EngagementAborted {
                            tick: self.tick,
                            drone: e.drone_id,
                            enemy: EnemyId(j as u32),
                            reason: AbortReason::OutOfRange,
                        },
                    ]
                } else if self.lock_due(j) {
                    seq![SimEvent::Neutralized { tick: self.tick, enemy: EnemyId(j as u32), by: e.drone_id }]
                } else {
                    Seq::empty()
                },
            }
        }
    }

    /// Enemy `j` and its lock after progressing the locks.
    pub open spec fn enemy_progressed(&self, after: &World, dist: &DistanceTable, j: int) -> bool {
        match self.engagements@[j] {
            None => after.engagements@[j] is None && after.enemies@[j] == self.enemies@[j],
            Some(e) => if self.lock_aborts(dist, j) {
                after.engagements@[j] is None && after.enemies@[j] == self.enemies@[j]
            } else if self.lock_due(j) {
                &&& after.engagements@[j] is None
                &&& after.enemies@[j] == (Enemy {
                    state: EnemyState::Neutralized { at_tick: self.tick, by: e.drone_id },
                    ..self.enemies@[j]
                })
            } else {
                after.engagements@[j] == self.engagements@[j] && after.enemies@[j] == self.enemies@[j]
            },
        }
    }

    /// Drone `i` after progressing the locks: expended now if it kills,
    /// otherwise unchanged.
    pub open spec fn drone_progressed(&self, after: &World, dist: &DistanceTable, i: int) -> bool {
        if self.kills_now(dist, i) {
            &&& after.drones@[i].id == self.drones@[i].id
            &&& after.drones@[i].detection_range == self.drones@[i].detection_range
            &&& after.drones@[i].spec_last_ops() == self.drones@[i].spec_last_ops()
            &&& after.drones@[i].state == (DroneState::Expended { at_tick: self.tick })
            &&& after.drones@[i].nearby_targets().len() == 0
            &&& after.drones@[i].nearby_drones().len() == 0
        } else {
            after.drones@[i] == self.drones@[i]
        }
    }

    /// `after` is `self` with every lock progressed: given up when its enemy
    /// is out of range, turned into a kill when held for `kill_ticks` ticks,
    /// kept otherwise.
    pub open spec fn progressed(&self, after: &World, dist: &DistanceTable) -> bool {
        &&& after.kill_ticks == self.kill_ticks
        &&& after.n_drones() == self.n_drones()
        &&& after.n_enemies() == self.n_enemies()
        &&& forall|j: int| 0 <= j < self.n_enemies() ==> #[trigger] self.enemy_progressed(after, dist, j)
        &&& forall|i: int| 0 <= i < self.n_drones() ==> #[trigger] self.drone_progressed(after, dist, i)
    }

    /// Progresses every lock, in enemy order (see `progressed`), appending
    /// the events to `events`.
    pub fn progress_engagements(&mut self, tick: u64, dist: &DistanceTable, events: &mut Vec<SimEvent>)
        requires
            old(self).wf(),
            tick == old(self).tick,
            dist.fits(old(self).n_drones(), old(self).n_enemies()),
        ensures
            final(self).wf(),
            final(self).tick == old(self).tick,
            old(self).progressed(final(self), dist),
            final(events)@ == old(events)@ + old(self).progress_events(dist, old(self).n_enemies() as int),
    {
        let ghost before = *self;
        let ghost events0 = events@;
        let m = self.engagements.len();
        for idx in 0..m
            invariant
                self.wf(),
                before.wf(),
                tick == before.tick,
                dist.fits(before.n_drones(), before.n_enemies()),
                m == before.n_enemies(),
                self.tick == before.tick,
                self.kill_ticks == before.kill_ticks,
                self.n_drones() == before.n_drones(),
                self.n_enemies() == before.n_enemies(),
                forall|j: int| 0 <= j < idx ==> #[trigger] before.enemy_progressed(self, dist, j),
                forall|j: int| idx <= j < m ==> #[trigger] self.engagements@[j] == before.engagements@[j],
                forall|j: int| idx <= j < m ==> #[trigger] self.enemies@[j] == before.enemies@[j],
                forall|i: int| 0 <= i < self.n_drones() ==> if before.kills_now(dist, i) && before.lock_of(i)->0 < idx {
                    before.drone_progressed(self, dist, i)
                } else {
                    #[trigger] self.drones@[i] == before.drones@[i]
                },
                events@ == events0 + before.progress_events(dist, idx as int),
        {
            let ghost mid = *self;
            match self.engagements[idx] {
                None => {
                    proof {
                        assert(before.progress_events(dist, idx as int + 1) == before.progress_events(dist, idx as int) + Seq::<SimEvent>::empty());
                        assert(before.enemy_progressed(self, dist, idx as int));
                        assert forall|j: int| idx + 1 <= j < m implies self.engagements@[j] == before.engagements@[j] && self.enemies@[j] == before.enemies@[j] by {
                                assert(mid.engagements@[j] == before.engagements@[j]);
                            }
                    }
                },
                Some(eng) => {
                    let i = eng.drone_id.0 as usize;
                    proof {
                        before.lemma_lock_of(i as int, idx as int);
                        assert(self.drones@[i as int] == before.drones@[i as int]);
                    }
                    let alive = self.enemies[idx].is_alive();
                    let out = lt(self.drones[i].detection_range, dist.to_enemies[i][idx]);
                    if !alive || out {
                        self.engagements.set(idx, None);
                        events.push(SimEvent::EngagementAborted {
                            tick,
                            drone: eng.drone_id,
                            enemy: EnemyId(idx as u32),
                            reason: AbortReason::OutOfRange,
                        });
                        proof {
                            assert(events@ == events0 + before.progress_events(dist, idx as int + 1));
                            assert(before.enemy_progressed(self, dist, idx as int));
                            assert forall|j: int| idx + 1 <= j < m implies self.engagements@[j] == before.engagements@[j] && self.enemies@[j] == before.enemies@[j] by {
                                assert(self.engagements@[j] == mid.engagements@[j]);
                            }
                            assert forall|j1: int, j2: int|
                                0 <= j1 < self.n_enemies() && 0 <= j2 < self.n_enemies() && j1 != j2
                                    && #[trigger] self.engagements@[j1] is Some && #[trigger] self.engagements@[j2] is Some
                                    implies self.engagements@[j1]->0.drone_id != self.engagements@[j2]->0.drone_id by {
                                assert(mid.engagements@[j1] is Some && mid.engagements@[j2] is Some);
                            }
                        }
                    } else if tick - eng.started_tick >= self.kill_ticks {
                        let r = self.complete_neutralization(eng.drone_id, EnemyId(idx as u32), dist);
                        proof {
                            assert(mid.neutralize_outcome(dist, eng.drone_id, EnemyId(idx as u32)) is Ok);
                            assert(mid.killed(&*self, i as int, idx as int));
                        }
                        match r {
                            Ok(ev) => {
                                events.push(ev);
                            },
                            Err(_) => {},
                        }
                        proof {
                            assert(events@ == events0 + before.progress_events(dist, idx as int + 1));
                            assert(before.enemy_progressed(self, dist, idx as int));
                            assert(before.kills_now(dist, i as int));
                            assert forall|k: int| 0 <= k < self.n_drones() && k != i implies #[trigger] self.drones@[k] == mid.drones@[k] by {}
                            assert forall|j: int| idx + 1 <= j < m implies self.engagements@[j] == before.engagements@[j] && self.enemies@[j] == before.enemies@[j] by {
                                assert(self.engagements@[j] == mid.engagements@[j]);
                                assert(self.enemies@[j] == mid.enemies@[j]);
                            }
                        }
                    } else {
                        proof {
                            assert(before.progress_events(dist, idx as int + 1) == before.progress_events(dist, idx as int) + Seq::<SimEvent>::empty());
                            assert(before.enemy_progressed(self, dist, idx as int));
                            assert(!before.kills_now(dist, i as int));
                            assert forall|j: int| idx + 1 <= j < m implies self.engagements@[j] == before.engagements@[j] && self.enemies@[j] == before.enemies@[j] by {
                                assert(mid.engagements@[j] == before.engagements@[j]);
                            }
                        }
                    }
                },
            }
            proof {
                assert forall|j: int| 0 <= j < idx + 1 implies #[trigger] before.enemy_progressed(self, dist, j) by {
                    if j < idx {
                        assert(before.enemy_progressed(&mid, dist, j));
                    }
                }
            }
        }
        proof {
            assert forall|i: int| 0 <= i < before.n_drones() implies #[trigger] before.drone_progressed(self, dist, i) by {
                if before.kills_now(dist, i) {
                    assert(before.lock_of(i)->0 < m);
                }
            }
        }
    }

    /// The ids of the live drones among the first `m`, in id order.
    pub open spec fn live_ids_upto(&self, m: int) -> Seq<DroneId>
        decreases m,
    {
        if m <= 0 {
            Seq::empty()
        } else if self.drone_live(m - 1) {
            self.live_ids_upto(m - 1).push(DroneId((m - 1) as u32))
        } else {
            self.live_ids_upto(m - 1)
        }
    }

    /// The ids of the live drones, in id order: the drones that decide.
    pub open spec fn live_ids(&self) -> Seq<DroneId> {
        self.live_ids_upto(self.n_drones() as int)
    }

    /// What drone `i` hands its targeting rule on this tick: its id, the
    /// tick, its seeker range, its contacts, and the enemy it holds a lock on.
    pub open spec fn decision_input(&self, i: int) -> TargetingView {
        TargetingView {
            self_id: DroneId(i as u32),
            tick: self.tick,
            detection_range: self.drones@[i].detection_range,
            targets: self.drones@[i].nearby_targets(),
            drones: self.drones@[i].nearby_drones(),
            current_engagement: match self.lock_of(i) {
                Some(j) => Some(EnemyId(j as u32)),
                None => None,
            },
        }
    }

    /// Drone `i` asks `algo` for a decision on what it sensed, and records
    /// the cost of that decision.
    fn compute_for<A: TargetingAlgorithm + ?Sized>(&mut self, i: usize, algo: &A, tick: u64) -> (r: SelectResult)
        requires
            old(self).wf(),
            i < old(self).n_drones(),
            tick == old(self).tick,
        ensures
            final(self).wf(),
            final(self).tick == old(self).tick,
            final(self).kill_ticks == old(self).kill_ticks,
            final(self).enemies@ == old(self).enemies@,
            final(self).engagements@ == old(self).engagements@,
            final(self).n_drones() == old(self).n_drones(),
            forall|k: int| 0 <= k < old(self).n_drones() && k != i ==> #[trigger] final(self).drones@[k] == old(self).drones@[k],
            final(self).drones@[i as int].id == old(self).drones@[i as int].id,
            final(self).drones@[i as int].detection_range == old(self).drones@[i as int].detection_range,
            final(self).drones@[i as int].state == old(self).drones@[i as int].state,
            final(self).drones@[i as int].nearby_targets() == old(self).drones@[i as int].nearby_targets(),
            final(self).drones@[i as int].nearby_drones() == old(self).drones@[i as int].nearby_drones(),
            final(self).drones@[i as int].spec_last_ops() == r.compute_ops,
            algo.selects(old(self).decision_input(i as int), r),
    {
        let id = DroneId(i as u32);
        let current_engagement = self.engagement_of(id);
        proof {
            match current_engagement {
                Some(e) => {
                    self.lemma_lock_of(i as int, e.0 as int);
                },
                None => {
                    assert(self.lock_of(i as int) is None);
                },
            }
        }
        let result = {
            let drone = &self.drones[i];
            let input = TargetingInput {
                self_id: id,
                tick,
                detection_range: drone.detection_range,
                targets: drone.get_nearby_targets(),
                drones: drone.get_nearby_drones(),
                current_engagement,
            };
            algo.select(&input)
        };
        self.drones[i].set_last_compute_ops(result.compute_ops);
        result
    }

    /// Drone `d` may take a lock on enemy `j`: it is live and holds no lock,
    /// the enemy is alive and within its seeker range.
    pub open spec fn may_acquire(&self, dist: &DistanceTable, d: DroneId, j: int) -> bool {
        let i = d.0 as int;
        &&& 0 <= i < self.n_drones()
        &&& self.drone_live(i)
        &&& self.lock_of(i) is None
        &&& 0 <= j < self.n_enemies()
        &&& self.enemy_alive(j)
        &&& !f64_lt(self.drones@[i].detection_range, dist.enemy_dist(i, j))
    }

    /// A lock on enemy `j` was taken this tick: there was none, a drone that
    /// may take it chose it, and the lock starts now.
    pub open spec fn acquired(&self, after: &World, dist: &DistanceTable, decisions: Seq<SimEvent>, j: int) -> bool {
        &&& self.engagements@[j] is None
        &&& after.engagements@[j] is Some
        &&& after.engagements@[j]->0.enemy_id == EnemyId(j as u32)
        &&& after.engagements@[j]->0.started_tick == self.tick
        &&& self.may_acquire(dist, after.engagements@[j]->0.drone_id, j)
        &&& chose(decisions, after.engagements@[j]->0.drone_id, EnemyId(j as u32))
    }

    /// `after` is `self` once every live drone, in id order, has decided:
    /// `decisions` holds one decision event per live drone, carrying what
    /// `algo` returns on that drone's input (`decision_input`); each drone
    /// records the cost of its decision; a drone that holds no lock locks on
    /// to the enemy it chose when that enemy is free. A drone that already
    /// holds a lock keeps it whatever it chose.
    pub open spec fn decided<A: TargetingAlgorithm + ?Sized>(&self, algo: &A, after: &World, dist: &DistanceTable, decisions: Seq<SimEvent>) -> bool {
        &&& after.tick == self.tick
        &&& after.kill_ticks == self.kill_ticks
        &&& after.enemies@ == self.enemies@
        &&& after.n_drones() == self.n_drones()
        &&& after.engagements@.len() == self.engagements@.len()
        &&& decisions.len() == self.live_ids().len()
        &&& forall|t: int|
            0 <= t < decisions.len() ==> {
                &&& (#[trigger] decisions[t]) is Decision
                &&& decisions[t]->Decision_tick == self.tick
                &&& decisions[t]->Decision_drone == self.live_ids()[t]
                &&& after.drones@[self.live_ids()[t].0 as int].spec_last_ops()
                    == decisions[t]->Decision_compute_ops
                &&& algo.selects(
                    self.decision_input(self.live_ids()[t].0 as int),
                    SelectResult {
                        target: decisions[t]->Decision_target,
                        compute_ops: decisions[t]->Decision_compute_ops,
                    },
                )
            }
        &&& forall|i: int|
            0 <= i < self.n_drones() ==> {
                &&& (#[trigger] after.drones@[i]).id == self.drones@[i].id
                &&& after.drones@[i].detection_range == self.drones@[i].detection_range
                &&& after.drones@[i].state == self.drones@[i].state
                &&& after.drones@[i].nearby_targets() == self.drones@[i].nearby_targets()
                &&& after.drones@[i].nearby_drones() == self.drones@[i].nearby_drones()
                &&& (!self.drone_live(i) ==> after.drones@[i].spec_last_ops()
                    == self.drones@[i].spec_last_ops())
            }
        &&& forall|j: int|
            0 <= j < self.n_enemies() ==> #[trigger] after.engagements@[j] == self.engagements@[j]
                || self.acquired(after, dist, decisions, j)
        // The first drone to choose a free enemy it may take gets it.
        &&& forall|d: DroneId, j: int|
            #[trigger] chose(decisions, d, EnemyId(j as u32)) && self.may_acquire(dist, d, j)
                ==> after.engagements@[j] is Some && (self.engagements@[j] is Some
                || after.engagements@[j]->0.drone_id.0 <= d.0)
    }

    /// Every live drone decides, in id order, and a drone holding no lock
    /// tries to lock on to its choice (see `decided`).
    fn decide_all<A: TargetingAlgorithm + ?Sized>(&mut self, algo: &A, tick: u64, dist: &DistanceTable) -> (events: Vec<SimEvent>)
        requires
            old(self).wf(),
            tick == old(self).tick,
            dist.fits(old(self).n_drones(), old(self).n_enemies()),
        ensures
            final(self).wf(),
            old(self).decided(algo, final(self), dist, events@),
    {
        let ghost before = *self;
        let n = self.drones.len();
        let mut events: Vec<SimEvent> = Vec::new();
        for i in 0..n
            invariant
                self.wf(),
                before.wf(),
                tick == before.tick,
                n == before.n_drones(),
                dist.fits(before.n_drones(), before.n_enemies()),
                self.tick == before.tick,
                self.kill_ticks == before.kill_ticks,
                self.enemies@ == before.enemies@,
                self.n_drones() == before.n_drones(),
                self.engagements@.len() == before.engagements@.len(),
                events@.len() == before.live_ids_upto(i as int).len(),
                forall|t: int|
                    0 <= t < events@.len() ==> {
                        &&& (#[trigger] events@[t]) is Decision
                        &&& events@[t]->Decision_tick == tick
                        &&& events@[t]->Decision_drone == before.live_ids_upto(i as int)[t]
                        &&& self.drones@[before.live_ids_upto(i as int)[t].0 as int].spec_last_ops()
                            == events@[t]->Decision_compute_ops
                        &&& algo.selects(
                            before.decision_input(before.live_ids_upto(i as int)[t].0 as int),
                            SelectResult {
                                target: events@[t]->Decision_target,
                                compute_ops: events@[t]->Decision_compute_ops,
                            },
                        )
                    },
                forall|k: int|
                    0 <= k < n ==> {
                        &&& (#[trigger] self.drones@[k]).id == before.drones@[k].id
                        &&& self.drones@[k].detection_range == before.drones@[k].detection_range
                        &&& self.drones@[k].state == before.drones@[k].state
                        &&& self.drones@[k].nearby_targets() == before.drones@[k].nearby_targets()
                        &&& self.drones@[k].nearby_drones() == before.drones@[k].nearby_drones()
                        &&& ((!before.drone_live(k) || k >= i) ==> self.drones@[k].spec_last_ops()
                            == before.drones@[k].spec_last_ops())
                    },
                forall|j: int|
                    0 <= j < before.n_enemies() ==> #[trigger] self.engagements@[j] == before.engagements@[j]
                        || (before.acquired(self, dist, events@, j) && self.engagements@[j]->0.drone_id.0 < i),
                forall|d: DroneId, j: int|
                    #[trigger] chose(events@, d, EnemyId(j as u32)) && before.may_acquire(dist, d, j)
                        ==> self.engagements@[j] is Some && (before.engagements@[j] is Some
                        || self.engagements@[j]->0.drone_id.0 <= d.0),
                forall|t: int| 0 <= t < events@.len() ==> (#[trigger] events@[t])->Decision_drone.0 < i,
        {
            let ghost mid = *self;
            let ghost mid_events = events@;
            proof {
                lemma_live_ids_bound(&before, i as int);
                // Drone i has taken no new lock: its lock is the one it held.
                assert forall|j: int| 0 <= j < before.n_enemies() implies (self.holds(i as int, j) <==> before.holds(i as int, j)) by {
                    if self.engagements@[j] != before.engagements@[j] {
                        assert(self.engagements@[j]->0.drone_id.0 < i);
                    }
                }
                lemma_same_lock(&before, self, i as int);
            }
            if self.drones[i].is_live() {
                proof {
                    assert(mid.decision_input(i as int) == before.decision_input(i as int));
                }
                let result = self.compute_for(i, algo, tick);
                let ghost after_compute = *self;
                events.push(SimEvent::Decision {
                    tick,
                    drone: DroneId(i as u32),
                    target: result.target,
                    compute_ops: result.compute_ops,
                });
                proof {
                    assert(before.live_ids_upto(i as int + 1) == before.live_ids_upto(i as int).push(DroneId(i as u32)));
                    assert forall|d: DroneId, j: int| #[trigger] chose(events@, d, EnemyId(j as u32)) && d.0 < i implies chose(mid_events, d, EnemyId(j as u32)) by {
                        let t = choose|t: int| 0 <= t < events@.len() && is_choice(#[trigger] events@[t], d, EnemyId(j as u32));
                        assert(t < mid_events.len());
                        assert(is_choice(mid_events[t], d, EnemyId(j as u32)));
                    }
                    assert forall|j: int| 0 <= j < before.n_enemies() && before.acquired(&mid, dist, mid_events, j) implies before.acquired(&mid, dist, events@, j) by {
                        let d = mid.engagements@[j]->0.drone_id;
                        let t = choose|t: int| 0 <= t < mid_events.len() && is_choice(#[trigger] mid_events[t], d, EnemyId(j as u32));
                        assert(is_choice(events@[t], d, EnemyId(j as u32)));
                    }
                }
                let engaged = self.engagement_of(DroneId(i as u32));
                let ghost pre_acquire = *self;
                proof {
                    assert(pre_acquire.engagements@ == mid.engagements@);
                    lemma_same_lock(&mid, &pre_acquire, i as int);
                    if engaged.is_none() {
                        assert(pre_acquire.lock_of(i as int) is None);
                    } else {
                        pre_acquire.lemma_lock_of(i as int, (engaged->0).0 as int);
                    }
                    assert(before.lock_of(i as int) == pre_acquire.lock_of(i as int));
                }
                if engaged.is_none() {
                    match result.target {
                        Some(tid) => {
                            let r = self.try_acquire(DroneId(i as u32), tid, tick, dist);
                            proof {
                                assert(is_choice(events@[events@.len() - 1], DroneId(i as u32), tid));
                                assert(chose(events@, DroneId(i as u32), tid));
                                if r is Ok {
                                    assert(before.may_acquire(dist, DroneId(i as u32), tid.0 as int));
                                    assert(before.engagements@[tid.0 as int] is None);
                                }
                            }
                        },
                        None => {},
                    }
                }
                proof {
                    assert forall|j: int| 0 <= j < before.n_enemies() implies #[trigger] self.engagements@[j] == before.engagements@[j]
                        || (before.acquired(self, dist, events@, j) && self.engagements@[j]->0.drone_id.0 < i + 1) by {
                        if self.engagements@[j] != pre_acquire.engagements@[j] {
                            assert(result.target == Some(EnemyId(j as u32)));
                            assert(is_choice(events@[events@.len() - 1], DroneId(i as u32), EnemyId(j as u32)));
                            assert(before.acquired(self, dist, events@, j));
                        } else if self.engagements@[j] != before.engagements@[j] {
                            assert(before.acquired(&mid, dist, mid_events, j));
                            assert(before.acquired(&mid, dist, events@, j));
                        }
                    }
                    assert forall|d: DroneId, j: int|
                        #[trigger] chose(events@, d, EnemyId(j as u32)) && before.may_acquire(dist, d, j)
                            implies self.engagements@[j] is Some && (before.engagements@[j] is Some
                            || self.engagements@[j]->0.drone_id.0 <= d.0) by {
                        if d.0 < i {
                            assert(chose(mid_events, d, EnemyId(j as u32)));
                            assert(mid.engagements@[j] is Some);
                            assert(pre_acquire.engagements@[j] is Some);
                        } else {
                            let t = choose|t: int| 0 <= t < events@.len() && is_choice(#[trigger] events@[t], d, EnemyId(j as u32));
                            if t < mid_events.len() {
                                assert(mid_events[t] == events@[t]);
                            }
                            assert(t == events@.len() - 1);
                            assert(d.0 == i);
                            assert(result.target == Some(EnemyId(j as u32)));
                            assert(engaged.is_none());
                            assert(pre_acquire.enemies@ == before.enemies@);
                            assert(pre_acquire.drones@[i as int].detection_range == before.drones@[i as int].detection_range);
                            assert(pre_acquire.drones@[i as int].state == before.drones@[i as int].state);
                        }
                    }
                }
            } else {
                proof {
                    assert(before.live_ids_upto(i as int + 1) == before.live_ids_upto(i as int));
                }
            }
        }
        events
    }

    /// `after` and `events` are what one tick makes of `self`: every live
    /// drone senses (`sensed`), the live drones decide in id order with
    /// `algo` and lock on (`decided`), the locks progress (`progressed`), and the tick
    /// advances. The events are the decisions followed by the aborts and
    /// kills in enemy order.
    pub open spec fn stepped<A: TargetingAlgorithm + ?Sized>(&self, algo: &A, after: &World, dist: &DistanceTable, events: Seq<SimEvent>) -> bool {
        &&& after.tick == self.tick + 1
        &&& exists|sensed: World, decided: World, decisions: Seq<SimEvent>|
            #![trigger sensed.decided(algo, &decided, dist, decisions)]
            {
                &&& self.sensed(&sensed, dist)
                &&& sensed.wf()
                &&& sensed.decided(algo, &decided, dist, decisions)
                &&& decided.wf()
                &&& decided.progressed(after, dist)
                &&& events == decisions + decided.progress_events(dist, decided.n_enemies() as int)
            }
    }

    /// Advances the round by one tick, once the caller has moved the drones
    /// and measured the distances `dist` (see `stepped`).
    pub fn step<A: TargetingAlgorithm + ?Sized>(&mut self, algo: &A, dist: &DistanceTable) -> (events: Vec<SimEvent>)
        requires
            old(self).wf(),
            dist.fits(old(self).n_drones(), old(self).n_enemies()),
            old(self).tick < u64::MAX,
        ensures
            final(self).wf(),
            old(self).stepped(algo, final(self), dist, events@),
    {
        let tick = self.tick;
        self.sense_all(dist);
        let ghost sensed = *self;
        let mut events = self.decide_all(algo, tick, dist);
        let ghost decided = *self;
        let ghost decisions = events@;
        self.progress_engagements(tick, dist, &mut events);
        let ghost pre = *self;
        self.tick = tick + 1;
        proof {
            assert(sensed.decided(algo, &decided, dist, decisions));
            assert forall|j: int| 0 <= j < decided.n_enemies() implies #[trigger] decided.enemy_progressed(&*self, dist, j) by {
                assert(decided.enemy_progressed(&pre, dist, j));
            }
            assert forall|i: int| 0 <= i < decided.n_drones() implies #[trigger] decided.drone_progressed(&*self, dist, i) by {
                assert(decided.drone_progressed(&pre, dist, i));
            }
            assert(decided.progressed(&*self, dist));
        }
        events
    }
}

/// Decision event `ev` is drone `d` choosing enemy `target`.
pub open spec fn is_choice(ev: SimEvent, d: DroneId, target: EnemyId) -> bool {
    ev matches SimEvent::Decision { drone, target: t, .. } && drone == d && t == Some(target)
}

/// Among `decisions`, drone `d` chose enemy `target`.
pub open spec fn chose(decisions: Seq<SimEvent>, d: DroneId, target: EnemyId) -> bool {
    exists|t: int| 0 <= t < decisions.len() && is_choice(#[trigger] decisions[t], d, target)
}

/// The live ids among the first `m` drones are increasing and below `m`.
pub proof fn lemma_live_ids_bound(w: &World, m: int)
    requires
        m <= u32::MAX,
    ensures
        forall|t: int| 0 <= t < w.live_ids_upto(m).len() ==> (#[trigger] w.live_ids_upto(m)[t]).0 < m,
        forall|t: int| 0 <= t < w.live_ids_upto(m).len() ==> w.drone_live((#[trigger] w.live_ids_upto(m)[t]).0 as int),
        w.live_ids_upto(m).len() <= if m < 0 { 0 } else { m },
    decreases m,
{
    if m > 0 {
        lemma_live_ids_bound(w, m - 1);
        if w.drone_live(m - 1) {
            let s = w.live_ids_upto(m);
            assert(s == w.live_ids_upto(m - 1).push(DroneId((m - 1) as u32)));
            assert(s[s.len() - 1].0 == m - 1);
        }
    }
}

/// Worlds that agree on who holds which lock agree on each drone's lock.
pub proof fn lemma_same_lock(a: &World, b: &World, i: int)
    requires
        a.wf(),
        b.wf(),
        a.n_enemies() == b.n_enemies(),
        forall|j: int| 0 <= j < a.n_enemies() ==> (b.holds(i, j) <==> a.holds(i, j)),
    ensures
        a.lock_of(i) == b.lock_of(i),
{
    if a.lock_of(i) is Some {
        let j = a.lock_of(i)->0;
        b.lemma_lock_of(i, j);
    } else if b.lock_of(i) is Some {
        let j = b.lock_of(i)->0;
        a.lemma_lock_of(i, j);
    }
}

/// Sensing reads only what sensing leaves unchanged.
proof fn lemma_candidates_same(a: &World, b: &World, dist: &DistanceTable, i: int)
    requires
        a.enemies@ == b.enemies@,
        a.engagements@ == b.engagements@,
        a.n_drones() == b.n_drones(),
        0 <= i < a.n_drones(),
        forall|k: int|
            0 <= k < a.n_drones() ==> {
                &&& (#[trigger] b.drones@[k]).detection_range == a.drones@[k].detection_range
                &&& b.drones@[k].state == a.drones@[k].state
            },
    ensures
        a.target_candidates(dist, i) == b.target_candidates(dist, i),
        a.friend_candidates(dist, i) == b.friend_candidates(dist, i),
{
    lemma_target_candidates_same(a, b, dist, i, a.n_enemies() as int);
    lemma_friend_candidates_same(a, b, dist, i, a.n_drones() as int);
}

proof fn lemma_target_candidates_same(a: &World, b: &World, dist: &DistanceTable, i: int, m: int)
    requires
        a.enemies@ == b.enemies@,
        a.engagements@ == b.engagements@,
        a.n_drones() == b.n_drones(),
        0 <= i < a.n_drones(),
        forall|k: int|
            0 <= k < a.n_drones() ==> {
                &&& (#[trigger] b.drones@[k]).detection_range == a.drones@[k].detection_range
                &&& b.drones@[k].state == a.drones@[k].state
            },
    ensures
        a.target_candidates_upto(dist, i, m) == b.target_candidates_upto(dist, i, m),
    decreases m,
{
    if m > 0 {
        lemma_target_candidates_same(a, b, dist, i, m - 1);
        assert(b.drones@[i].detection_range == a.drones@[i].detection_range);
    }
}

proof fn lemma_friend_candidates_same(a: &World, b: &World, dist: &DistanceTable, i: int, m: int)
    requires
        a.n_drones() == b.n_drones(),
        0 <= i < a.n_drones(),
        m <= a.n_drones(),
        forall|k: int|
            0 <= k < a.n_drones() ==> {
                &&& (#[trigger] b.drones@[k]).detection_range == a.drones@[k].detection_range
                &&& b.drones@[k].state == a.drones@[k].state
            },
    ensures
        a.friend_candidates_upto(dist, i, m) == b.friend_candidates_upto(dist, i, m),
    decreases m,
{
    if m > 0 {
        lemma_friend_candidates_same(a, b, dist, i, m - 1);
        assert(b.drones@[i].detection_range == a.drones@[i].detection_range);
        assert(b.drones@[m - 1].state == a.drones@[m - 1].state);
    }
}

} // verus!
