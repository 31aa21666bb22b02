//! A circular battlefield swept by a formation of one-shot drones: what each
//! drone senses, how it picks a target, how exclusive locks turn into kills,
//! and the statistics of a round. Positions and motion are real-valued and
//! belong to the caller; this crate works on the order of the distances.
pub mod algorithm;
pub mod algorithms;
pub mod config;
pub mod contact;
pub mod drone;
pub mod enemy;
pub mod ids;
pub mod laws;
pub mod metrics;
pub mod order;
pub mod persist;
pub mod plot;
pub mod session;
pub mod world;

pub use algorithm::{algorithm_by_name, AlgorithmKind, SelectResult, TargetingAlgorithm, TargetingInput};
pub use algorithms::{CloserThanFriend, NearestInRange};
pub use config::{ConfigError, SimConfig};
pub use contact::{
    keep_nearest_drones, keep_nearest_targets, DroneContact, TargetContact, MAX_DRONE_CONTACTS,
    MAX_TARGET_CONTACTS,
};
pub use drone::{Drone, DroneState};
pub use enemy::{Enemy, EnemyState};
pub use ids::{DroneId, EnemyId};
pub use world::{AbortReason, DistanceTable, Engagement, NeutralizeError, SimEvent, World};
