use battlefield_sim::contact::{keep_nearest_drones, keep_nearest_targets, DroneContact, TargetContact};
use battlefield_sim::ids::{DroneId, EnemyId};

fn target(id: u32, d: f64) -> TargetContact {
    TargetContact {
        id: EnemyId(id),
        distance: d.to_bits(),
        engaged_by: None,
    }
}

#[test]
fn keeps_eight_nearest_in_rank_order() {
    let items: Vec<TargetContact> = (0..12u32).rev().map(|k| target(k, k as f64 + 0.5)).collect();
    let kept = keep_nearest_targets(items);
    let ids: Vec<u32> = kept.iter().map(|c| c.id.0).collect();
    assert_eq!(ids, vec![0, 1, 2, 3, 4, 5, 6, 7]);
}

#[test]
fn equal_distance_ranks_smaller_id_first() {
    let mut items: Vec<TargetContact> = (1..=7u32).map(|k| target(k + 10, k as f64)).collect();
    items.push(target(30, 10.0));
    items.push(target(20, 10.0));
    let kept = keep_nearest_targets(items);
    let ids: Vec<u32> = kept.iter().map(|c| c.id.0).collect();
    assert_eq!(ids, vec![11, 12, 13, 14, 15, 16, 17, 20]);
}

#[test]
fn fewer_than_cap_keeps_all_sorted() {
    let kept = keep_nearest_targets(vec![target(3, 9.0), target(1, 2.0), target(2, 4.5)]);
    let ids: Vec<u32> = kept.iter().map(|c| c.id.0).collect();
    assert_eq!(ids, vec![1, 2, 3]);
    assert!(keep_nearest_targets(Vec::new()).is_empty());
}

#[test]
fn friends_kept_the_same_way() {
    let items: Vec<DroneContact> = (0..10u32)
        .map(|k| DroneContact {
            id: DroneId(k),
            distance: (100.0 - k as f64).to_bits(),
        })
        .collect();
    let kept = keep_nearest_drones(items);
    let ids: Vec<u32> = kept.iter().map(|c| c.id.0).collect();
    assert_eq!(ids, vec![9, 8, 7, 6, 5, 4, 3, 2]);
}

#[test]
fn contacts_ranking_alike_keep_their_order() {
    let a = TargetContact { id: EnemyId(1), distance: 5.0f64.to_bits(), engaged_by: None };
    let b = TargetContact { id: EnemyId(1), distance: 5.0f64.to_bits(), engaged_by: Some(DroneId(2)) };
    let near = TargetContact { id: EnemyId(4), distance: 1.0f64.to_bits(), engaged_by: None };
    let kept = keep_nearest_targets(vec![a, near, b]);
    assert_eq!(kept.as_slice(), &[near, a, b]);
    let kept = keep_nearest_targets(vec![b, a, near]);
    assert_eq!(kept.as_slice(), &[near, b, a]);
}
