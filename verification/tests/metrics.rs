use battlefield_sim::enemy::{Enemy, EnemyState};
use battlefield_sim::ids::{DroneId, EnemyId};
use battlefield_sim::metrics::{p50_compute_ops, p99_compute_ops, summarize_compute_ops, tally_enemies};

#[test]
fn p50_uses_len_div_2() {
    let v = [1u64, 2, 3, 4];
    assert_eq!(p50_compute_ops(&v), 3);
    let v = [1u64, 2, 3];
    assert_eq!(p50_compute_ops(&v), 2);
}

#[test]
fn p99_uses_floor_formula() {
    let v: Vec<u64> = (0..100).collect();
    // floor(0.99 * 99) = floor(98.01) = 98
    assert_eq!(p99_compute_ops(&v), 98);
}

#[test]
fn percentiles_of_empty_are_zero() {
    assert_eq!(p50_compute_ops(&[]), 0);
    assert_eq!(p99_compute_ops(&[]), 0);
}

#[test]
fn p99_of_small_lists() {
    assert_eq!(p99_compute_ops(&[7]), 7);
    // floor(0.99 * 1) = 0
    assert_eq!(p99_compute_ops(&[1, 2]), 1);
    // floor(0.99 * 200) = 198
    let v: Vec<u64> = (0..201).collect();
    assert_eq!(p99_compute_ops(&v), 198);
}

#[test]
fn summary_sorts_before_taking_percentiles() {
    let s = summarize_compute_ops(vec![9, 1, 5, 3, 7]);
    assert_eq!(s.decision_count, 5);
    assert_eq!(s.total_compute_ops, 25);
    assert_eq!(s.p50_compute_ops, 5);
    assert_eq!(s.p99_compute_ops, 7);
    assert_eq!(s.max_compute_ops, 9);
    let e = summarize_compute_ops(Vec::new());
    assert_eq!((e.decision_count, e.total_compute_ops, e.p50_compute_ops, e.max_compute_ops), (0, 0, 0, 0));
}

#[test]
fn tally_counts_neutralized_and_remaining() {
    let enemies = vec![
        Enemy { id: EnemyId(0), spawn_tick: 0, state: EnemyState::Alive },
        Enemy { id: EnemyId(1), spawn_tick: 0, state: EnemyState::Neutralized { at_tick: 4, by: DroneId(2) } },
        Enemy { id: EnemyId(2), spawn_tick: 0, state: EnemyState::Neutralized { at_tick: 9, by: DroneId(0) } },
    ];
    let t = tally_enemies(&enemies);
    assert_eq!(t.enemies_neutralized, 2);
    assert_eq!(t.remaining_enemies, 1);
    assert_eq!(enemies[1].survival_ticks(20), 4);
    assert_eq!(enemies[0].survival_ticks(20), 20);
}
