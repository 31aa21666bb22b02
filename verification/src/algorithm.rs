//! The interface between a drone's perception and a targeting rule.
use vstd::prelude::*;
use crate::contact::{DroneContact, TargetContact};
use crate::config::{ConfigError, ConfigErrorView};
use crate::ids::{DroneId, EnemyId};
use crate::order::{f64_le, total_key};

verus! {

/// What a drone hands its targeting rule on one tick.
pub struct TargetingInput<'a> {
    pub self_id: DroneId,
    pub tick: u64,
    /// Bit pattern of the seeker range (see `order`).
    pub detection_range: u64,
    pub targets: &'a [TargetContact],
    pub drones: &'a [DroneContact],
    /// The enemy this drone holds a lock on, if any. A locked drone is still
    /// asked to decide; the world ignores its choice.
    pub current_engagement: Option<EnemyId>,
}

/// A targeting input as values: the lists of contacts as sequences.
pub struct TargetingView {
    pub self_id: DroneId,
    pub tick: u64,
    pub detection_range: u64,
    pub targets: Seq<TargetContact>,
    pub drones: Seq<DroneContact>,
    pub current_engagement: Option<EnemyId>,
}

impl<'a> View for TargetingInput<'a> {
    type V = TargetingView;

    open spec fn view(&self) -> TargetingView {
        TargetingView {
            self_id: self.self_id,
            tick: self.tick,
            detection_range: self.detection_range,
            targets: self.targets@,
            drones: self.drones@,
            current_engagement: self.current_engagement,
        }
    }
}

/// A targeting decision.
#[derive(Clone, Copy, Debug, PartialEq, Eq, Structural)]
pub struct SelectResult {
    pub target: Option<EnemyId>,
    /// Deterministic count of the operations the decision took; the only
    /// measure of cost by which rules are scored.
    pub compute_ops: u64,
}

/// The most contacts a targeting input may list for the operation count to
/// stay within `u64`.
pub open spec fn input_within_limits(input: TargetingView) -> bool {
    input.targets.len() + input.drones.len() <= 0x3fff_ffff_ffff_ffff
}

/// A targeting rule.
pub trait TargetingAlgorithm: Send + Sync {
    /// `r` is a decision this rule may return on `input`. A rule that
    /// describes none of its decisions may return any.
    closed spec fn selects(&self, input: TargetingView, r: SelectResult) -> bool {
        true
    }

    fn name(&self) -> &'static str;

    fn select(&self, input: &TargetingInput) -> (r: SelectResult)
        requires
            input_within_limits(input@),
        ensures
            self.selects(input@, r),
    ;
}

/// An enemy contact this drone may fire on: within the seeker range (IEEE
/// `distance <= range`) and not locked by another drone.
pub open spec fn eligible(c: TargetContact, range: u64, self_id: DroneId) -> bool {
    &&& f64_le(c.distance, range)
    &&& match c.engaged_by {
        None => true,
        Some(owner) => owner == self_id,
    }
}

/// Contact `k` of the input is eligible.
pub open spec fn eligible_at(input: TargetingView, k: int) -> bool {
    eligible(input.targets[k], input.detection_range, input.self_id)
}

/// `a` is strictly nearer than `b` in the order (distance by
/// `f64::total_cmp`, then id).
pub open spec fn strictly_before(a: TargetContact, b: TargetContact) -> bool {
    ||| total_key(a.distance) < total_key(b.distance)
    ||| (total_key(a.distance) == total_key(b.distance) && a.id.0 < b.id.0)
}

/// Contact `k` is eligible and strictly nearer than every eligible contact
/// listed before it: scanning in order, it replaces the best seen so far.
pub open spec fn is_record(input: TargetingView, k: int) -> bool {
    &&& eligible_at(input, k)
    &&& forall|j: int| 0 <= j < k && eligible_at(input, j) ==> strictly_before(
        input.targets[k],
        #[trigger] input.targets[j],
    )
}

/// How many of the first `k` contacts are records.
pub open spec fn count_records(input: TargetingView, k: int) -> nat
    decreases k,
{
    if k <= 0 {
        0
    } else {
        count_records(input, k - 1) + if is_record(input, k - 1) {
            1nat
        } else {
            0nat
        }
    }
}

/// Contact `k` is the nearest eligible one: no eligible contact is strictly
/// nearer, and among equally near ones it is listed first.
pub open spec fn is_nearest_eligible(input: TargetingView, k: int) -> bool {
    &&& 0 <= k < input.targets.len()
    &&& eligible_at(input, k)
    &&& forall|j: int|
        0 <= j < input.targets.len() && #[trigger] eligible_at(input, j) ==> {
            &&& (j < k ==> strictly_before(input.targets[k], input.targets[j]))
            &&& (k < j ==> !strictly_before(input.targets[j], input.targets[k]))
        }
}

/// Some listed contact is eligible.
pub open spec fn some_eligible(input: TargetingView) -> bool {
    exists|k: int| 0 <= k < input.targets.len() && eligible_at(input, k)
}

/// `target` names the nearest eligible contact, or is empty when none is eligible.
pub open spec fn names_nearest_eligible(input: TargetingView, target: Option<EnemyId>) -> bool {
    match target {
        None => !some_eligible(input),
        Some(id) => exists|k: int| is_nearest_eligible(input, k) && input.targets[k].id == id,
    }
}


/// The targeting rules a round can be run with.
#[derive(Clone, Copy, Debug, PartialEq, Eq, Structural)]
pub enum AlgorithmKind {
    NearestInRange,
    CloserThanFriend,
    /// The learned policy; its weights are loaded by the caller.
    Transformer,
}

/// The two strings read the same.
fn str_is(a: &str, b: &str) -> (r: bool)
    ensures
        r == (a@ == b@),
{
    let x = a.to_owned();
    let y = b.to_owned();
    x == y
}

/// The targeting rule with this name: `nearest_in_range`,
/// `closer_than_friend` or `transformer`; any other name is an unknown
/// algorithm.
pub fn algorithm_by_name(name: &str) -> (r: Result<AlgorithmKind, ConfigError>)
    ensures
        match r {
            Ok(k) => {
                ||| (name@ == "nearest_in_range"@ && k == AlgorithmKind::NearestInRange)
                ||| (name@ == "closer_than_friend"@ && k == AlgorithmKind::CloserThanFriend)
                ||| (name@ == "transformer"@ && k == AlgorithmKind::Transformer)
            },
            Err(e) => {
                &&& name@ != "nearest_in_range"@
                &&& name@ != "closer_than_friend"@
                &&& name@ != "transformer"@
                &&& e@ == (ConfigErrorView::UnknownAlgorithm { name: name@ })
            },
        },
{
    if str_is(name, "nearest_in_range") {
        Ok(AlgorithmKind::NearestInRange)
    } else if str_is(name, "closer_than_friend") {
        Ok(AlgorithmKind::CloserThanFriend)
    } else if str_is(name, "transformer") {
        Ok(AlgorithmKind::Transformer)
    } else {
        Err(ConfigError::UnknownAlgorithm { name: name.to_owned() })
    }
}

} // verus!
