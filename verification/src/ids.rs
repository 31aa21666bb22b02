use vstd::prelude::*;

verus! {

/// Identifier of a drone; drones are numbered from zero in formation order.
#[derive(Clone, Copy, Debug, PartialEq, Eq, Structural, PartialOrd, Ord, Hash)]
pub struct DroneId(pub u32);

/// Identifier of an enemy; enemies are numbered from zero in placement order.
#[derive(Clone, Copy, Debug, PartialEq, Eq, Structural, PartialOrd, Ord, Hash)]
pub struct EnemyId(pub u32);

} // verus!
