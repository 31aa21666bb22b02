use battlefield_sim::enemy::{Enemy, EnemyState};
use battlefield_sim::ids::{DroneId, EnemyId};
use battlefield_sim::persist::{
    rows_for_events, rows_for_survivors, DecisionRow, OutcomeRow, RoundTx, StoreError, StoreOp,
};
use battlefield_sim::world::{AbortReason, SimEvent};

#[test]
fn one_round_at_a_time_in_the_store() {
    let mut tx = RoundTx::new();
    assert!(!tx.is_open());
    assert_eq!(tx.allows(StoreOp::ApplyEvents), Err(StoreError::EventsWithoutRound));
    assert_eq!(tx.allows(StoreOp::FinalizeRound), Err(StoreError::FinalizeWithoutRound));
    assert_eq!(tx.allows(StoreOp::BeginRound), Ok(()));
    tx.carried_out(StoreOp::BeginRound);
    assert!(tx.is_open());
    assert_eq!(tx.allows(StoreOp::BeginRound), Err(StoreError::RoundStillOpen));
    assert_eq!(tx.allows(StoreOp::ApplyEvents), Ok(()));
    tx.carried_out(StoreOp::ApplyEvents);
    assert!(tx.is_open());
    assert_eq!(tx.allows(StoreOp::FinalizeRound), Ok(()));
    tx.carried_out(StoreOp::FinalizeRound);
    assert!(!tx.is_open());
    assert_eq!(tx.allows(StoreOp::BeginRound), Ok(()));
}

#[test]
fn refusals_carry_their_messages() {
    assert_eq!(
        StoreError::RoundStillOpen.message(),
        "begin_round called while a round is still open"
    );
    assert_eq!(StoreError::EventsWithoutRound.message(), "apply_events without an open round");
    assert_eq!(StoreError::FinalizeWithoutRound.message(), "finalize_round without an open round");
}

#[test]
fn events_become_rows_in_order() {
    let events = vec![
        SimEvent::Decision { tick: 3, drone: DroneId(0), target: Some(EnemyId(4)), compute_ops: 7 },
        SimEvent::Decision { tick: 3, drone: DroneId(1), target: None, compute_ops: 1 },
        SimEvent::EngagementAborted {
            tick: 3,
            drone: DroneId(2),
            enemy: EnemyId(1),
            reason: AbortReason::OutOfRange,
        },
        SimEvent::Neutralized { tick: 3, enemy: EnemyId(4), by: DroneId(5) },
        SimEvent::Neutralized { tick: 3, enemy: EnemyId(2), by: DroneId(0) },
    ];
    let (decisions, outcomes) = rows_for_events(&events);
    assert_eq!(
        decisions,
        vec![
            DecisionRow { tick: 3, drone: DroneId(0), chosen_target: Some(EnemyId(4)), compute_ops: 7 },
            DecisionRow { tick: 3, drone: DroneId(1), chosen_target: None, compute_ops: 1 },
        ]
    );
    assert_eq!(
        outcomes,
        vec![
            OutcomeRow { enemy: EnemyId(4), neutralized_by: Some(DroneId(5)) },
            OutcomeRow { enemy: EnemyId(2), neutralized_by: Some(DroneId(0)) },
        ]
    );
    let (d, o) = rows_for_events(&[]);
    assert!(d.is_empty() && o.is_empty());
}

#[test]
fn survivors_get_rows_without_killer() {
    let enemies = vec![
        Enemy { id: EnemyId(0), spawn_tick: 0, state: EnemyState::Alive },
        Enemy {
            id: EnemyId(1),
            spawn_tick: 0,
            state: EnemyState::Neutralized { at_tick: 9, by: DroneId(3) },
        },
        Enemy { id: EnemyId(2), spawn_tick: 0, state: EnemyState::Alive },
    ];
    assert_eq!(
        rows_for_survivors(&enemies),
        vec![
            OutcomeRow { enemy: EnemyId(0), neutralized_by: None },
            OutcomeRow { enemy: EnemyId(2), neutralized_by: None },
        ]
    );
    assert!(rows_for_survivors(&[]).is_empty());
}
