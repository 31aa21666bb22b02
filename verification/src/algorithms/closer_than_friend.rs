//! The rule that fires only on an enemy nearer than every friend in sight.
use vstd::prelude::*;
use crate::order::{f64_lt, lt};
use crate::algorithm::{
    count_records, is_nearest_eligible, some_eligible, SelectResult, TargetingAlgorithm,
    TargetingInput, TargetingView,
};
use super::nearest::scan_targets;

verus! {

/// The research rule. Friends and enemies are seen within the same seeker
/// range; the friend list holds the friends this drone can see, not the
/// whole swarm.
/// 1. find the nearest visible friend (none visible: no friend at all);
/// 2. find the nearest eligible enemy;
/// 3. fire only when that enemy is strictly nearer than that friend. With no
///    friend in sight this is firing on the nearest enemy.
pub struct CloserThanFriend;

/// Bit pattern of +infinity: the distance to the nearest friend when none is seen.
pub const NO_FRIEND_DISTANCE: u64 = 0x7ff0_0000_0000_0000;

/// Distance to the nearest of the first `k` friends, starting from +infinity.
pub open spec fn nearest_friend_among(input: TargetingView, k: int) -> u64
    decreases k,
{
    if k <= 0 {
        NO_FRIEND_DISTANCE
    } else {
        let m = nearest_friend_among(input, k - 1);
        if f64_lt(input.drones[k - 1].distance, m) {
            input.drones[k - 1].distance
        } else {
            m
        }
    }
}

/// Distance to the nearest friend in sight, +infinity when none is.
pub open spec fn nearest_friend(input: TargetingView) -> u64 {
    nearest_friend_among(input, input.drones.len() as int)
}

/// How many of the first `k` friends are nearer (IEEE `<`) than every
/// friend before them (and than +infinity): each costs one update when scanning.
pub open spec fn count_friend_records(input: TargetingView, k: int) -> nat
    decreases k,
{
    if k <= 0 {
        0
    } else {
        count_friend_records(input, k - 1) + if f64_lt(
            input.drones[k - 1].distance,
            nearest_friend_among(input, k - 1),
        ) {
            1nat
        } else {
            0nat
        }
    }
}

/// Scans the friends in order for the nearest one. Returns its distance and
/// the operations spent: one per friend examined, one per update.
pub fn nearest_friend_distance(input: &TargetingInput) -> (r: (u64, u64))
    requires
        input.drones@.len() <= 0x3fff_ffff_ffff_ffff,
    ensures
        r.0 == nearest_friend(input@),
        r.1 == input.drones@.len() + count_friend_records(input@, input.drones@.len() as int),
        count_friend_records(input@, input.drones@.len() as int) <= input.drones@.len(),
{
    let n = input.drones.len();
    let mut ops: u64 = 0;
    let mut min_friend: u64 = NO_FRIEND_DISTANCE;
    let mut i: usize = 0;
    while i < n
        invariant
            n == input.drones@.len(),
            n <= 0x3fff_ffff_ffff_ffff,
            i <= n,
            min_friend == nearest_friend_among(input@, i as int),
            ops == i + count_friend_records(input@, i as int),
            count_friend_records(input@, i as int) <= i,
        decreases n - i,
    {
        let c = input.drones[i];
        ops = ops + 1;
        if lt(c.distance, min_friend) {
            ops = ops + 1;
            min_friend = c.distance;
        }
        i = i + 1;
    }
    (min_friend, ops)
}

impl TargetingAlgorithm for CloserThanFriend {
    /// Fires on the nearest eligible enemy exactly when it is strictly nearer
    /// than the nearest friend in sight. Operations: one per friend examined
    /// and per update of the nearest friend, one per enemy examined and per
    /// replacement of the best enemy, one for the final comparison, one to
    /// return.
    open spec fn selects(&self, input: TargetingView, r: SelectResult) -> bool {
        &&& match r.target {
            None => forall|k: int|
                is_nearest_eligible(input, k) ==> !f64_lt(input.targets[k].distance, nearest_friend(input)),
            Some(id) => exists|k: int|
                {
                    &&& is_nearest_eligible(input, k)
                    &&& input.targets[k].id == id
                    &&& f64_lt(input.targets[k].distance, nearest_friend(input))
                },
        }
        &&& r.compute_ops == input.drones.len() + count_friend_records(input, input.drones.len() as int)
            + input.targets.len() + count_records(input, input.targets.len() as int) + 2
    }

    fn name(&self) -> (r: &'static str)
        ensures
            r@ == "closer_than_friend"@,
    {
        "closer_than_friend"
    }

    fn select(&self, input: &TargetingInput) -> (r: SelectResult)
    {
        let (min_friend, friend_ops) = nearest_friend_distance(input);
        let (best, target_ops) = scan_targets(input);
        let target = match best {
            Some(k) => {
                if lt(input.targets[k].distance, min_friend) {
                    Some(input.targets[k].id)
                } else {
                    None
                }
            },
            None => None,
        };
        proof {
            assert forall|k: int| is_nearest_eligible(input@, k) && target.is_none() implies !f64_lt(input.targets@[k].distance, nearest_friend(input@)) by {
                lemma_nearest_eligible_unique(input@, k, best);
            }
        }
        SelectResult { target, compute_ops: friend_ops + target_ops + 2 }
    }
}

/// There is at most one nearest eligible contact.
proof fn lemma_nearest_eligible_unique(input: TargetingView, k: int, best: Option<usize>)
    requires
        is_nearest_eligible(input, k),
        match best {
            None => !some_eligible(input),
            Some(b) => is_nearest_eligible(input, b as int),
        },
    ensures
        best == Some(k as usize),
{
    match best {
        None => {
            assert(some_eligible(input));
        },
        Some(b) => {
            let bi = b as int;
            if bi < k {
                assert(crate::algorithm::strictly_before(input.targets[k], input.targets[bi]));
            } else if k < bi {
                assert(crate::algorithm::strictly_before(input.targets[bi], input.targets[k]));
            }
        },
    }
}

} // verus!
