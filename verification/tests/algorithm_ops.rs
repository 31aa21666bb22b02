use battlefield_sim::algorithm::{SelectResult, TargetingAlgorithm, TargetingInput};
use battlefield_sim::contact::{DroneContact, TargetContact};
use battlefield_sim::ids::{DroneId, EnemyId};
use battlefield_sim::{CloserThanFriend, NearestInRange};

fn key(d: f64) -> u64 {
    d.to_bits()
}

fn contact(id: u32, distance: f64, engaged_by: Option<u32>) -> TargetContact {
    TargetContact {
        id: EnemyId(id),
        distance: key(distance),
        engaged_by: engaged_by.map(DroneId),
    }
}

fn input<'a>(targets: &'a [TargetContact], range: f64) -> TargetingInput<'a> {
    TargetingInput {
        self_id: DroneId(0),
        tick: 0,
        detection_range: key(range),
        targets,
        drones: &[],
        current_engagement: None,
    }
}

#[test]
fn empty_targets_ops_1_none() {
    let r = NearestInRange.select(&input(&[], 50.0));
    assert_eq!(
        r,
        SelectResult {
            target: None,
            compute_ops: 1
        }
    );
}

#[test]
fn three_all_out_of_range() {
    let t = [
        contact(0, 60.0, None),
        contact(1, 70.0, None),
        contact(2, 80.0, None),
    ];
    let r = NearestInRange.select(&input(&t, 50.0));
    assert_eq!(
        r,
        SelectResult {
            target: None,
            compute_ops: 4
        }
    );
}

#[test]
fn one_eligible() {
    let t = [contact(3, 10.0, None)];
    let r = NearestInRange.select(&input(&t, 50.0));
    assert_eq!(
        r,
        SelectResult {
            target: Some(EnemyId(3)),
            compute_ops: 3
        }
    );
}

#[test]
fn two_eligible_nearer_first() {
    let t = [contact(1, 5.0, None), contact(2, 15.0, None)];
    let r = NearestInRange.select(&input(&t, 50.0));
    assert_eq!(
        r,
        SelectResult {
            target: Some(EnemyId(1)),
            compute_ops: 4
        }
    );
}

#[test]
fn two_eligible_farther_first() {
    let t = [contact(1, 15.0, None), contact(2, 5.0, None)];
    let r = NearestInRange.select(&input(&t, 50.0));
    assert_eq!(
        r,
        SelectResult {
            target: Some(EnemyId(2)),
            compute_ops: 5
        }
    );
}

#[test]
fn select_is_pure() {
    let t = [contact(1, 15.0, None), contact(2, 5.0, None)];
    let inp = input(&t, 50.0);
    let a = NearestInRange.select(&inp);
    let b = NearestInRange.select(&inp);
    assert_eq!(a, b);
}

#[test]
fn skips_engaged_by_other() {
    let t = [contact(1, 5.0, Some(9)), contact(2, 8.0, None)];
    let r = NearestInRange.select(&input(&t, 50.0));
    assert_eq!(r.target, Some(EnemyId(2)));
    // examine 2 + update 1 (only id 2) + return 1 = 4
    assert_eq!(r.compute_ops, 4);
}

fn friend(id: u32, distance: f64) -> DroneContact {
    DroneContact {
        id: DroneId(id),
        distance: key(distance),
    }
}

fn input_with_friends<'a>(
    targets: &'a [TargetContact],
    drones: &'a [DroneContact],
    range: f64,
) -> TargetingInput<'a> {
    TargetingInput {
        self_id: DroneId(0),
        tick: 0,
        detection_range: key(range),
        targets,
        drones,
        current_engagement: None,
    }
}

#[test]
fn closer_than_friend_fires_when_target_nearer() {
    let t = [contact(1, 10.0, None)];
    let f = [friend(2, 40.0)];
    let r = CloserThanFriend.select(&input_with_friends(&t, &f, 50.0));
    assert_eq!(r.target, Some(EnemyId(1)));
    // friends: exam 1 + update 1; targets: exam 1 + update 1; compare 1; return 1 = 6
    assert_eq!(r.compute_ops, 6);
}

#[test]
fn closer_than_friend_holds_when_friend_nearer() {
    let t = [contact(1, 45.0, None)];
    let f = [friend(2, 40.0)];
    let r = CloserThanFriend.select(&input_with_friends(&t, &f, 50.0));
    assert_eq!(r.target, None);
    assert_eq!(r.compute_ops, 6);
}

#[test]
fn closer_than_friend_equal_distance_does_not_fire() {
    let t = [contact(1, 40.0, None)];
    let f = [friend(2, 40.0)];
    let r = CloserThanFriend.select(&input_with_friends(&t, &f, 50.0));
    assert_eq!(r.target, None);
}

#[test]
fn closer_than_friend_no_friends_fires() {
    let t = [contact(1, 10.0, None)];
    let r = CloserThanFriend.select(&input_with_friends(&t, &[], 50.0));
    assert_eq!(r.target, Some(EnemyId(1)));
    // targets exam+update, compare, return = 4
    assert_eq!(r.compute_ops, 4);
}

#[test]
fn nearest_ties_on_distance_prefer_smaller_id() {
    let t = [contact(5, 7.0, None), contact(2, 7.0, None), contact(9, 7.0, None)];
    let r = NearestInRange.select(&input(&t, 50.0));
    // examine 3, replace on id 5 then id 2, return
    assert_eq!(
        r,
        SelectResult {
            target: Some(EnemyId(2)),
            compute_ops: 6
        }
    );
}

#[test]
fn nearest_own_lock_is_eligible_and_range_is_inclusive() {
    let t = [contact(4, 50.0, Some(0))];
    let r = NearestInRange.select(&input(&t, 50.0));
    assert_eq!(r.target, Some(EnemyId(4)));
    assert_eq!(r.compute_ops, 3);
}

#[test]
fn closer_than_friend_counts_friend_updates() {
    let t = [contact(1, 10.0, None), contact(2, 5.0, None)];
    let f = [friend(3, 40.0), friend(4, 30.0), friend(5, 35.0)];
    let r = CloserThanFriend.select(&input_with_friends(&t, &f, 50.0));
    // friends: 3 examined + 2 updates; targets: 2 examined + 2 updates; compare; return
    assert_eq!(r.target, Some(EnemyId(2)));
    assert_eq!(r.compute_ops, 11);
}

#[test]
fn closer_than_friend_holds_when_nothing_eligible() {
    let t = [contact(1, 10.0, Some(7))];
    let r = CloserThanFriend.select(&input_with_friends(&t, &[], 50.0));
    assert_eq!(r.target, None);
    assert_eq!(r.compute_ops, 3);
}

#[test]
fn algorithm_names() {
    assert_eq!(NearestInRange.name(), "nearest_in_range");
    assert_eq!(CloserThanFriend.name(), "closer_than_friend");
}

#[test]
fn nan_seeker_range_fires_on_nothing() {
    let t = [contact(0, 10.0, None)];
    let r = NearestInRange.select(&input(&t, f64::NAN));
    assert_eq!(r, SelectResult { target: None, compute_ops: 2 });
}

#[test]
fn nan_distance_is_never_in_range() {
    let t = [contact(0, f64::NAN, None), contact(1, 30.0, None)];
    let r = NearestInRange.select(&input(&t, 50.0));
    assert_eq!(r.target, Some(EnemyId(1)));
}

#[test]
fn negative_zero_is_within_zero_range() {
    let t = [contact(3, -0.0, None)];
    let r = NearestInRange.select(&input(&t, 0.0));
    assert_eq!(r, SelectResult { target: Some(EnemyId(3)), compute_ops: 3 });
}

#[test]
fn nan_friend_distance_is_not_nearer() {
    let t = [contact(0, 30.0, None)];
    let friends = [DroneContact { id: DroneId(1), distance: key(f64::NAN) }];
    let inp = TargetingInput {
        self_id: DroneId(0),
        tick: 0,
        detection_range: key(50.0),
        targets: &t,
        drones: &friends,
        current_engagement: None,
    };
    // The NaN friend never becomes the nearest: 1 friend examined, 1 target
    // examined and taken, 1 comparison, 1 return.
    let r = CloserThanFriend.select(&inp);
    assert_eq!(r, SelectResult { target: Some(EnemyId(0)), compute_ops: 5 });
}
