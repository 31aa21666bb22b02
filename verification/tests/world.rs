//! Rounds on a fixed field. The field below keeps the positions and moves the
//! drones, as a caller of the library does, and hands the library the
//! distances of each tick.
use battlefield_sim::algorithm::TargetingAlgorithm;
use battlefield_sim::config::SimConfig as CoreConfig;
use battlefield_sim::drone::{Drone, DroneState};
use battlefield_sim::enemy::EnemyState;
use battlefield_sim::ids::{DroneId, EnemyId};
use battlefield_sim::world::{AbortReason, DistanceTable, SimEvent, World};
use battlefield_sim::persist::{rows_for_events, rows_for_survivors, OutcomeRow};
use battlefield_sim::NearestInRange;

#[derive(Clone, Copy, Debug, PartialEq)]
struct Position {
    x: f64,
    y: f64,
}

impl Position {
    fn distance(self, other: Position) -> f64 {
        (self.x - other.x).hypot(self.y - other.y)
    }
}

#[derive(Clone, Debug)]
struct SimConfig {
    radius_m: f64,
    enemy_count: u32,
    drone_rows: u32,
    drones_per_row: u32,
    row_gap_m: f64,
    speed_m_s: f64,
    dt_s: f64,
    detection_range_m: f64,
    t_kill_s: f64,
    start_margin_m: f64,
    end_margin_m: f64,
    max_ticks: u64,
}

impl Default for SimConfig {
    fn default() -> Self {
        SimConfig {
            radius_m: 200.0,
            enemy_count: 20,
            drone_rows: 2,
            drones_per_row: 6,
            row_gap_m: 40.0,
            speed_m_s: 25.0,
            dt_s: 0.01,
            detection_range_m: 50.0,
            t_kill_s: 0.05,
            start_margin_m: 80.0,
            end_margin_m: 80.0,
            max_ticks: 0,
        }
    }
}

impl SimConfig {
    fn validated(mut self) -> Result<Self, String> {
        let path = (self.radius_m + self.end_margin_m) - (-self.radius_m - self.start_margin_m)
            + self.row_gap_m;
        let kinematic = (path / (self.speed_m_s * self.dt_s)).ceil() as u64;
        let core = CoreConfig {
            radius_m: self.radius_m.to_bits(),
            enemy_count: self.enemy_count,
            drone_rows: self.drone_rows,
            drones_per_row: self.drones_per_row,
            row_gap_m: self.row_gap_m.to_bits(),
            speed_m_s: self.speed_m_s.to_bits(),
            dt_s: self.dt_s.to_bits(),
            detection_range_m: self.detection_range_m.to_bits(),
            friend_detection_range_m: 100.0f64.to_bits(),
            t_kill_s: self.t_kill_s.to_bits(),
            start_margin_m: self.start_margin_m.to_bits(),
            end_margin_m: self.end_margin_m.to_bits(),
            max_target_contacts: 8,
            max_drone_contacts: 8,
            expend_on_kill: true,
            max_ticks: self.max_ticks,
            stagger_rows: false,
            ingress: "formation".to_string(),
            sigma_x_m: 70.0f64.to_bits(),
            sigma_y_m: 30.0f64.to_bits(),
        };
        let checked = core.validated(kinematic).map_err(|e| format!("{e:?}"))?;
        self.max_ticks = checked.max_ticks;
        Ok(self)
    }

    fn kill_ticks(&self) -> u64 {
        (self.t_kill_s / self.dt_s).ceil() as u64
    }
}

fn row_x_positions(radius: f64, n: u32) -> Vec<f64> {
    (0..n)
        .map(|i| {
            let t = i as f64 / (n as f64 - 1.0);
            -radius + t * (2.0 * radius)
        })
        .collect()
}

/// The x of each rail, per row; rows fly side by side.
fn formation_rows(radius: f64, per_row: u32, rows: u32) -> Vec<Vec<f64>> {
    (0..rows).map(|_| row_x_positions(radius, per_row)).collect()
}

struct Field {
    cfg: SimConfig,
    world: World,
    drone_pos: Vec<Position>,
    enemy_pos: Vec<Position>,
}

impl Field {
    fn with_enemy_positions(cfg: SimConfig, positions: Vec<Position>) -> Field {
        assert_eq!(positions.len(), cfg.enemy_count as usize);
        let xs = row_x_positions(cfg.radius_m, cfg.drones_per_row);
        let y_lead = -cfg.radius_m - cfg.start_margin_m;
        let mut drone_pos = Vec::new();
        for row in 0..cfg.drone_rows {
            let y = y_lead - (row as f64) * cfg.row_gap_m;
            for &x in &xs {
                drone_pos.push(Position { x, y });
            }
        }
        let world = World::new(
            cfg.drone_rows * cfg.drones_per_row,
            cfg.enemy_count,
            cfg.detection_range_m.to_bits(),
            cfg.kill_ticks(),
        );
        Field {
            cfg,
            world,
            drone_pos,
            enemy_pos: positions,
        }
    }

    fn step(&mut self, algo: &dyn TargetingAlgorithm) -> Vec<SimEvent> {
        for p in &mut self.drone_pos {
            p.y += self.cfg.speed_m_s * self.cfg.dt_s;
        }
        let table = DistanceTable {
            to_enemies: self
                .drone_pos
                .iter()
                .map(|d| self.enemy_pos.iter().map(|e| d.distance(*e).to_bits()).collect())
                .collect(),
            to_drones: self
                .drone_pos
                .iter()
                .map(|d| self.drone_pos.iter().map(|o| d.distance(*o).to_bits()).collect())
                .collect(),
        };
        self.world.step(algo, &table)
    }

    fn is_finished(&self) -> bool {
        if self.world.tick >= self.cfg.max_ticks {
            return true;
        }
        let min_y = self.drone_pos.iter().map(|p| p.y).fold(f64::INFINITY, f64::min);
        min_y >= self.cfg.radius_m + self.cfg.end_margin_m
    }

    fn sim_time_s(&self) -> f64 {
        self.world.tick as f64 * self.cfg.dt_s
    }

    fn drone(&self, id: DroneId) -> &Drone {
        self.world.drone(id).unwrap()
    }

    fn drone_pos(&self, id: DroneId) -> Position {
        self.drone_pos[id.0 as usize]
    }
}

fn distance_of(key: u64) -> f64 {
    f64::from_bits(key)
}

fn on_rail_cfg(enemies: u32) -> SimConfig {
    let mut c = SimConfig::default();
    c.enemy_count = enemies;
    c.drone_rows = 1;
    c.drones_per_row = 2;
    c
}

#[test]
fn t_kill_truth_table() {
    let cfg = on_rail_cfg(1).validated().unwrap();
    let x0 = -cfg.radius_m;
    let y = -cfg.radius_m - cfg.start_margin_m + cfg.speed_m_s * cfg.dt_s;
    let dt = cfg.dt_s;
    let mut world = Field::with_enemy_positions(cfg.clone(), vec![Position { x: x0, y }]);
    let mut neutralized: Option<SimEvent> = None;
    for _ in 0..6 {
        let events = world.step(&NearestInRange);
        if let Some(ev) = events
            .into_iter()
            .find(|e| matches!(e, SimEvent::Neutralized { .. }))
        {
            neutralized = Some(ev);
        }
    }
    let SimEvent::Neutralized { tick, enemy, by } = neutralized.expect("should kill on 6th step")
    else {
        panic!("wrong event");
    };
    let survival_s = tick as f64 * dt;
    assert_eq!(tick, 5);
    assert_eq!(world.world.tick, 6);
    assert!((survival_s - 0.05).abs() < 1e-12);
    assert!((world.sim_time_s() - 0.06).abs() < 1e-12);
    assert_ne!(survival_s, world.sim_time_s());
    assert_eq!(enemy, EnemyId(0));
    assert_eq!(by, DroneId(0));
    match world.world.enemies()[0].state {
        EnemyState::Neutralized { at_tick, .. } => {
            assert_eq!(at_tick, 5);
            assert!((world.world.enemies()[0].survival_ticks(6) as f64 * dt - 0.05).abs() < 1e-12);
        }
        other => panic!("{other:?}"),
    }
    match world.drone(DroneId(0)).state {
        DroneState::Expended { at_tick } => assert_eq!(at_tick, 5),
        other => panic!("{other:?}"),
    }
}

#[test]
fn abort_out_of_range_with_long_t_kill() {
    let mut cfg = on_rail_cfg(1);
    cfg.t_kill_s = 10.0;
    let cfg = cfg.validated().unwrap();
    let x0 = -cfg.radius_m;
    let mut world = Field::with_enemy_positions(cfg, vec![Position { x: x0, y: 0.0 }]);
    let mut aborted = false;
    while !world.is_finished() {
        let events = world.step(&NearestInRange);
        if events.iter().any(|e| {
            matches!(
                e,
                SimEvent::EngagementAborted {
                    reason: AbortReason::OutOfRange,
                    ..
                }
            )
        }) {
            aborted = true;
            break;
        }
    }
    assert!(aborted);
    assert!(world.world.enemies()[0].is_alive());
    assert!(world.drone(DroneId(0)).is_live());
}

#[test]
fn smaller_drone_id_wins_same_tick_conflict() {
    let mut cfg = SimConfig::default();
    cfg.radius_m = 40.0;
    cfg.enemy_count = 1;
    cfg.drone_rows = 1;
    cfg.drones_per_row = 2;
    cfg.detection_range_m = 80.0;
    let cfg = cfg.validated().unwrap();
    let y = -cfg.radius_m - cfg.start_margin_m + cfg.speed_m_s * cfg.dt_s;
    let mut world = Field::with_enemy_positions(cfg, vec![Position { x: 0.0, y }]);
    world.step(&NearestInRange);
    assert_eq!(world.world.engagement_of(DroneId(0)), Some(EnemyId(0)));
    assert_eq!(world.world.engagement_of(DroneId(1)), None);
    let mut killer = None;
    while !world.is_finished() {
        let events = world.step(&NearestInRange);
        if let Some(SimEvent::Neutralized { by, .. }) = events
            .iter()
            .find(|e| matches!(e, SimEvent::Neutralized { .. }))
        {
            killer = Some(*by);
            break;
        }
    }
    assert_eq!(killer, Some(DroneId(0)));
}

#[test]
fn expended_drone_stops_deciding_and_cannot_fire_again() {
    let cfg = on_rail_cfg(2).validated().unwrap();
    let x0 = -cfg.radius_m;
    let y = -cfg.radius_m - cfg.start_margin_m + cfg.speed_m_s * cfg.dt_s;
    let positions = vec![Position { x: x0, y }, Position { x: x0, y: y + 30.0 }];
    let mut world = Field::with_enemy_positions(cfg, positions);
    let mut after_expend_ticks = 0;
    loop {
        let live_before = world.drone(DroneId(0)).is_live();
        let events = world.step(&NearestInRange);
        let decisions_0 = events
            .iter()
            .filter(|e| matches!(e, SimEvent::Decision { drone, .. } if *drone == DroneId(0)))
            .count();
        if !live_before {
            assert_eq!(decisions_0, 0);
            after_expend_ticks += 1;
            if after_expend_ticks >= 3 {
                break;
            }
        } else {
            assert_eq!(decisions_0, 1);
        }
        if world.is_finished() {
            break;
        }
    }
    assert!(!world.drone(DroneId(0)).is_live());
    let kills_by_0 = world
        .world
        .enemies()
        .iter()
        .filter(|e| matches!(e.state, EnemyState::Neutralized { by, .. } if by == DroneId(0)))
        .count();
    assert_eq!(kills_by_0, 1);
}

#[test]
fn locked_drone_still_emits_decision() {
    let cfg = on_rail_cfg(1).validated().unwrap();
    let x0 = -cfg.radius_m;
    let y = -cfg.radius_m - cfg.start_margin_m + cfg.speed_m_s * cfg.dt_s;
    let mut world = Field::with_enemy_positions(cfg, vec![Position { x: x0, y }]);
    world.step(&NearestInRange);
    assert!(world.world.engagement_of(DroneId(0)).is_some());
    let lock = world.world.engagement_of(DroneId(0));
    let events = world.step(&NearestInRange);
    let dec = events
        .iter()
        .find_map(|e| match e {
            SimEvent::Decision {
                drone,
                target,
                compute_ops,
                ..
            } if *drone == DroneId(0) => Some((*target, *compute_ops)),
            _ => None,
        })
        .expect("decision while locked");
    assert!(dec.1 > 0);
    assert_eq!(world.world.engagement_of(DroneId(0)), lock);
}

fn twelve_on_six_rails() -> (SimConfig, Vec<Position>) {
    let mut cfg = SimConfig::default();
    cfg.enemy_count = 12;
    let cfg = cfg.validated().unwrap();
    let rows = formation_rows(cfg.radius_m, cfg.drones_per_row, cfg.drone_rows);
    let mut positions = Vec::new();
    for x in &rows[0] {
        positions.push(Position { x: *x, y: -20.0 });
    }
    for x in &rows[1] {
        positions.push(Position { x: *x, y: 20.0 });
    }
    (cfg, positions)
}

#[test]
fn twelve_on_six_rails_twelve_kills() {
    let (cfg, positions) = twelve_on_six_rails();
    let mut world = Field::with_enemy_positions(cfg, positions);
    let mut kills: Vec<(EnemyId, DroneId)> = Vec::new();
    while !world.is_finished() {
        for e in world.step(&NearestInRange) {
            if let SimEvent::Neutralized { enemy, by, .. } = e {
                kills.push((enemy, by));
            }
        }
    }
    assert_eq!(kills.len(), 12);
    assert!(world.world.drones().iter().all(|d| !d.is_live()));
    assert!(world.world.enemies().iter().all(|e| !e.is_alive()));
}

fn cfg_1row(enemies: u32, drones_per_row: u32) -> SimConfig {
    let mut c = SimConfig::default();
    c.enemy_count = enemies;
    c.drone_rows = 1;
    c.drones_per_row = drones_per_row;
    c
}

#[test]
fn nearest_8_drops_9th() {
    let cfg = cfg_1row(9, 2).validated().unwrap();
    let y = -cfg.radius_m - cfg.start_margin_m + cfg.speed_m_s * cfg.dt_s;
    let x0 = -cfg.radius_m;
    let positions: Vec<Position> = (1..=9)
        .map(|k| Position {
            x: x0 + k as f64,
            y,
        })
        .collect();
    let mut world = Field::with_enemy_positions(cfg, positions);
    world.step(&NearestInRange);
    let mem = world.drone(DroneId(0)).get_nearby_targets();
    assert_eq!(mem.len(), 8);
    let ids: Vec<u32> = mem.iter().map(|c| c.id.0).collect();
    assert_eq!(ids, vec![0, 1, 2, 3, 4, 5, 6, 7]);
    assert!(mem.iter().all(|c| distance_of(c.distance) <= 8.0 + 1e-9));
}

#[test]
fn equal_distance_keeps_smaller_id() {
    let cfg = cfg_1row(9, 2).validated().unwrap();
    let y = -cfg.radius_m - cfg.start_margin_m + cfg.speed_m_s * cfg.dt_s;
    let x0 = -cfg.radius_m;
    let mut positions = Vec::new();
    for i in 1..=7 {
        positions.push(Position {
            x: x0 + i as f64,
            y,
        });
    }
    positions.push(Position { x: x0 + 10.0, y }); // id 7, dist 10
    positions.push(Position { x: x0 - 10.0, y }); // id 8, dist 10
    let mut world = Field::with_enemy_positions(cfg, positions);
    world.step(&NearestInRange);
    let mem = world.drone(DroneId(0)).get_nearby_targets();
    let ids: Vec<u32> = mem.iter().map(|c| c.id.0).collect();
    assert_eq!(ids, vec![0, 1, 2, 3, 4, 5, 6, 7]);
    assert!(!ids.contains(&8));
}

#[test]
fn self_not_in_friend_list() {
    let cfg = cfg_1row(1, 2).validated().unwrap();
    let positions = vec![Position { x: 0.0, y: 0.0 }];
    let mut world = Field::with_enemy_positions(cfg, positions);
    world.step(&NearestInRange);
    for d in world.world.drones() {
        assert!(d.get_nearby_drones().iter().all(|c| c.id != d.id));
    }
}

#[test]
fn out_of_range_target_not_in_memory() {
    let cfg = cfg_1row(1, 2).validated().unwrap();
    let positions = vec![Position { x: 0.0, y: 0.0 }];
    let mut world = Field::with_enemy_positions(cfg, positions);
    world.step(&NearestInRange);
    let mem = world.drone(DroneId(0)).get_nearby_targets();
    assert!(
        mem.iter().all(|c| c.id != EnemyId(0)),
        "targets outside D must not occupy the 8-slot memory"
    );
}

#[test]
fn engaged_by_is_sense_snapshot_not_same_tick_acquire() {
    let mut cfg = SimConfig::default();
    cfg.radius_m = 40.0;
    cfg.enemy_count = 1;
    cfg.drone_rows = 1;
    cfg.drones_per_row = 2;
    cfg.detection_range_m = 80.0;
    cfg.start_margin_m = 50.0;
    cfg.end_margin_m = 50.0;
    let cfg = cfg.validated().unwrap();
    let y = -cfg.radius_m - cfg.start_margin_m + cfg.speed_m_s * cfg.dt_s;
    let positions = vec![Position { x: 0.0, y }];
    let mut world = Field::with_enemy_positions(cfg, positions);
    let events = world.step(&NearestInRange);
    let mem0 = world.drone(DroneId(0)).get_nearby_targets();
    assert_eq!(mem0[0].engaged_by, None, "same-tick acquire must be stale");
    let decisions: Vec<_> = events
        .iter()
        .filter_map(|e| match e {
            SimEvent::Decision { drone, target, .. } => Some((*drone, *target)),
            _ => None,
        })
        .collect();
    assert!(decisions.iter().any(|(d, t)| *d == DroneId(0) && *t == Some(EnemyId(0))));
    assert_eq!(world.world.engagement_of(DroneId(0)), Some(EnemyId(0)));
    world.step(&NearestInRange);
    let mem0 = world.drone(DroneId(0)).get_nearby_targets();
    assert_eq!(mem0[0].engaged_by, Some(DroneId(0)));
}

#[test]
fn corpse_leaves_memory_on_next_sense() {
    let mut cfg = SimConfig::default();
    cfg.enemy_count = 1;
    cfg.drone_rows = 1;
    cfg.drones_per_row = 2;
    let cfg = cfg.validated().unwrap();
    let x0 = -cfg.radius_m;
    let y = -cfg.radius_m - cfg.start_margin_m + cfg.speed_m_s * cfg.dt_s;
    let mut world = Field::with_enemy_positions(cfg, vec![Position { x: x0, y }]);
    let mut killed = false;
    for _ in 0..20 {
        let events = world.step(&NearestInRange);
        if events.iter().any(|e| matches!(e, SimEvent::Neutralized { .. })) {
            killed = true;
            break;
        }
    }
    assert!(killed);
    world.step(&NearestInRange);
    for d in world.world.drones() {
        assert!(
            d.get_nearby_targets().iter().all(|c| c.id != EnemyId(0)),
            "corpse still in drone {} memory",
            d.id.0
        );
    }
}

#[test]
fn expended_friend_not_in_neighbor_list() {
    let mut cfg = SimConfig::default();
    cfg.enemy_count = 1;
    cfg.drone_rows = 1;
    cfg.drones_per_row = 2;
    cfg.detection_range_m = 500.0;
    let cfg = cfg.validated().unwrap();
    let x0 = -cfg.radius_m;
    let y = -cfg.radius_m - cfg.start_margin_m + cfg.speed_m_s * cfg.dt_s;
    let mut world = Field::with_enemy_positions(cfg, vec![Position { x: x0, y }]);
    for _ in 0..20 {
        world.step(&NearestInRange);
        if !world.drone(DroneId(0)).is_live() {
            break;
        }
    }
    assert!(!world.drone(DroneId(0)).is_live());
    world.step(&NearestInRange);
    let friends = world.drone(DroneId(1)).get_nearby_drones();
    assert!(friends.iter().all(|c| c.id != DroneId(0)));
}

#[test]
fn friend_outside_detection_range_not_in_memory() {
    let cfg = cfg_1row(1, 2).validated().unwrap();
    assert!(cfg.detection_range_m < 2.0 * cfg.radius_m);
    let range = cfg.detection_range_m;
    let mut world = Field::with_enemy_positions(cfg, vec![Position { x: 0.0, y: 0.0 }]);
    world.step(&NearestInRange);
    assert!(world.drone_pos(DroneId(0)).distance(world.drone_pos(DroneId(1))) > range);
    assert!(world.drone(DroneId(0)).get_nearby_drones().is_empty());
    assert!(world.drone(DroneId(1)).get_nearby_drones().is_empty());
}

#[test]
fn friends_within_range_are_sensed() {
    let mut cfg = SimConfig::default();
    cfg.enemy_count = 1;
    cfg.drone_rows = 1;
    cfg.drones_per_row = 2;
    cfg.detection_range_m = 500.0;
    let cfg = cfg.validated().unwrap();
    let mut world = Field::with_enemy_positions(cfg, vec![Position { x: 1000.0, y: 1000.0 }]);
    world.step(&NearestInRange);
    let f = world.drone(DroneId(0)).get_nearby_drones();
    assert_eq!(f.len(), 1);
    assert_eq!(f[0].id, DroneId(1));
    assert!((distance_of(f[0].distance) - 400.0).abs() < 1e-9);
}

#[test]
fn new_world_is_fresh() {
    let w = World::new(3, 2, 50.0f64.to_bits(), 5);
    assert_eq!(w.tick, 0);
    assert_eq!(w.drones().len(), 3);
    assert_eq!(w.enemies().len(), 2);
    assert!(w.drones().iter().all(|d| d.is_live() && d.get_nearby_targets().is_empty()));
    assert!(w.enemies().iter().all(|e| e.is_alive()));
    assert_eq!(w.engagement_of(DroneId(1)), None);
    assert!(w.drone(DroneId(3)).is_none());
}

#[test]
fn decision_costs_are_recorded() {
    let cfg = on_rail_cfg(1).validated().unwrap();
    let x0 = -cfg.radius_m;
    let y = -cfg.radius_m - cfg.start_margin_m + cfg.speed_m_s * cfg.dt_s;
    let mut world = Field::with_enemy_positions(cfg, vec![Position { x: x0, y }]);
    let events = world.step(&NearestInRange);
    for ev in &events {
        if let SimEvent::Decision { drone, compute_ops, .. } = ev {
            assert_eq!(world.drone(*drone).last_compute_ops(), *compute_ops);
        }
    }
    // drone 0 sees the enemy: examine 1, update 1, return 1
    assert_eq!(world.drone(DroneId(0)).last_compute_ops(), 3);
    // drone 1 sees nothing: return 1
    assert_eq!(world.drone(DroneId(1)).last_compute_ops(), 1);
}

#[test]
fn every_enemy_gets_one_outcome_row_per_round() {
    // Twelve enemies on the rails and eight more far off the field: all
    // twelve on the rails die, the rest survive the round.
    let (mut cfg, mut positions) = twelve_on_six_rails();
    cfg.enemy_count = 20;
    for k in 0..8 {
        positions.push(Position { x: 1000.0 + 10.0 * k as f64, y: 0.0 });
    }
    let mut field = Field::with_enemy_positions(cfg, positions);
    let mut outcomes = Vec::new();
    let mut decisions = 0usize;
    while !field.is_finished() {
        let events = field.step(&NearestInRange);
        let (d, o) = rows_for_events(&events);
        decisions += d.len();
        outcomes.extend(o);
    }
    assert_eq!(outcomes.len(), 12);
    assert!(decisions > 0);
    outcomes.extend(rows_for_survivors(field.world.enemies()));
    assert_eq!(outcomes.len(), 20);
    for j in 0..20u32 {
        let rows: Vec<&OutcomeRow> = outcomes.iter().filter(|r| r.enemy == EnemyId(j)).collect();
        assert_eq!(rows.len(), 1);
        let e = &field.world.enemies()[j as usize];
        match e.state {
            EnemyState::Neutralized { by, .. } => assert_eq!(rows[0].neutralized_by, Some(by)),
            EnemyState::Alive => assert_eq!(rows[0].neutralized_by, None),
        }
    }
    let killed = outcomes.iter().filter(|r| r.neutralized_by.is_some()).count();
    assert_eq!(killed, 12);
}

#[test]
fn kills_match_spent_drones_every_tick() {
    let (cfg, positions) = twelve_on_six_rails();
    let mut field = Field::with_enemy_positions(cfg, positions);
    while !field.is_finished() {
        field.step(&NearestInRange);
        let killed = field.world.enemies().iter().filter(|e| !e.is_alive()).count();
        let spent = field.world.drones().iter().filter(|d| !d.is_live()).count();
        assert_eq!(killed, spent);
    }
}
