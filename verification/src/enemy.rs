//! A static enemy on the field.
use vstd::prelude::*;
use crate::ids::{DroneId, EnemyId};

verus! {

#[derive(Clone, Copy, Debug, PartialEq, Eq, Structural)]
pub enum EnemyState {
    Alive,
    /// Neutralized on tick `at_tick` by drone `by`; it survived `at_tick`
    /// ticks of simulated time.
    Neutralized { at_tick: u64, by: DroneId },
}

#[derive(Clone, Copy, Debug, PartialEq, Eq, Structural)]
pub struct Enemy {
    pub id: EnemyId,
    pub spawn_tick: u64,
    pub state: EnemyState,
}

impl Enemy {
    pub(crate) fn new(id: EnemyId) -> (e: Self)
        ensures
            e == (Enemy { id, spawn_tick: 0, state: EnemyState::Alive }),
    {
        Enemy { id, spawn_tick: 0, state: EnemyState::Alive }
    }

    pub fn is_alive(&self) -> (r: bool)
        ensures
            r == (self.state == EnemyState::Alive),
    {
        match self.state {
            EnemyState::Alive => true,
            EnemyState::Neutralized { .. } => false,
        }
    }

    /// Survival time in ticks: the tick of its neutralization (the count of
    /// ticks from the start of the round), or, while alive, the ticks since it
    /// spawned. Seconds are this times the tick length.
    pub fn survival_ticks(&self, now_tick: u64) -> (r: u64)
        requires
            self.state == EnemyState::Alive ==> self.spawn_tick <= now_tick,
        ensures
            r == match self.state {
                EnemyState::Neutralized { at_tick, .. } => at_tick,
                EnemyState::Alive => (now_tick - self.spawn_tick) as u64,
            },
    {
        match self.state {
            EnemyState::Neutralized { at_tick, .. } => at_tick,
            EnemyState::Alive => now_tick - self.spawn_tick,
        }
    }
}

} // verus!
