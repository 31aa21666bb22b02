//! The targeting rules.
mod closer_than_friend;
mod nearest;

pub use closer_than_friend::{count_friend_records, nearest_friend, nearest_friend_among, nearest_friend_distance, CloserThanFriend, NO_FRIEND_DISTANCE};
pub use nearest::{scan_targets, NearestInRange};
