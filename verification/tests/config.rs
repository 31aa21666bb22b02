use battlefield_sim::algorithm::{algorithm_by_name, AlgorithmKind};
use battlefield_sim::config::{ConfigError, SimConfig};

/// The default configuration of a round.
fn default_config() -> SimConfig {
    SimConfig {
        radius_m: 200.0f64.to_bits(),
        enemy_count: 20,
        drone_rows: 2,
        drones_per_row: 6,
        row_gap_m: 40.0f64.to_bits(),
        speed_m_s: 25.0f64.to_bits(),
        dt_s: 0.01f64.to_bits(),
        detection_range_m: 50.0f64.to_bits(),
        friend_detection_range_m: 100.0f64.to_bits(),
        t_kill_s: 0.05f64.to_bits(),
        start_margin_m: 80.0f64.to_bits(),
        end_margin_m: 80.0f64.to_bits(),
        max_target_contacts: 8,
        max_drone_contacts: 8,
        expend_on_kill: true,
        max_ticks: 0,
        stagger_rows: false,
        ingress: "formation".to_string(),
        sigma_x_m: 70.0f64.to_bits(),
        sigma_y_m: 30.0f64.to_bits(),
    }
}

/// Ticks to fly the default path: ceil(600 m / (25 m/s * 0.01 s)).
const DEFAULT_KINEMATIC_TICKS: u64 = 2400;

#[test]
fn expend_on_kill_false_is_unsupported() {
    let mut cfg = default_config();
    cfg.expend_on_kill = false;
    match cfg.validated(DEFAULT_KINEMATIC_TICKS) {
        Err(ConfigError::Unsupported { flag, value }) => {
            assert_eq!(flag, "expend_on_kill");
            assert_eq!(value, "false");
        }
        Err(other) => panic!("expected Unsupported, got {other:?}"),
        Ok(_) => panic!("expected Unsupported, got Ok"),
    }
}

#[test]
fn default_max_ticks_adds_hundred_to_kinematic() {
    let cfg = default_config().validated(DEFAULT_KINEMATIC_TICKS).unwrap();
    assert_eq!(cfg.max_ticks, 2500);
    assert_eq!(cfg.enemy_count, 20);
    assert_eq!(cfg.radius_m, 200.0f64.to_bits());
}

#[test]
fn explicit_max_ticks_kept() {
    let mut cfg = default_config();
    cfg.max_ticks = 7;
    assert_eq!(cfg.validated(DEFAULT_KINEMATIC_TICKS).unwrap().max_ticks, 7);
}

#[test]
fn default_max_ticks_saturates() {
    let cfg = default_config().validated(u64::MAX - 3).unwrap();
    assert_eq!(cfg.max_ticks, u64::MAX);
}

#[test]
fn zero_radius_is_non_positive() {
    let mut cfg = default_config();
    cfg.radius_m = 0.0f64.to_bits();
    match cfg.validated(DEFAULT_KINEMATIC_TICKS) {
        Err(ConfigError::NonPositive { field, value }) => {
            assert_eq!(field, "radius_m");
            assert_eq!(value, 0);
        }
        _ => panic!("expected NonPositive"),
    }
}

#[test]
fn infinite_and_nan_speed_are_non_positive() {
    for bad in [f64::INFINITY, f64::NAN, -1.0] {
        let mut cfg = default_config();
        cfg.speed_m_s = bad.to_bits();
        match cfg.validated(DEFAULT_KINEMATIC_TICKS) {
            Err(ConfigError::NonPositive { field, .. }) => assert_eq!(field, "speed_m_s"),
            _ => panic!("expected NonPositive"),
        }
    }
}

#[test]
fn first_failing_check_is_reported() {
    let mut cfg = default_config();
    cfg.dt_s = (-0.01f64).to_bits();
    cfg.enemy_count = 0;
    match cfg.validated(DEFAULT_KINEMATIC_TICKS) {
        Err(ConfigError::NonPositive { field, .. }) => assert_eq!(field, "dt_s"),
        _ => panic!("expected NonPositive on dt_s"),
    }
}

#[test]
fn negative_margin_is_negative_but_minus_zero_is_fine() {
    let mut cfg = default_config();
    cfg.start_margin_m = (-0.0f64).to_bits();
    assert!(cfg.validated(DEFAULT_KINEMATIC_TICKS).is_ok());
    let mut cfg = default_config();
    cfg.end_margin_m = (-1.0f64).to_bits();
    match cfg.validated(DEFAULT_KINEMATIC_TICKS) {
        Err(ConfigError::Negative { field, value }) => {
            assert_eq!(field, "end_margin_m");
            assert_eq!(f64::from_bits(value), -1.0);
        }
        _ => panic!("expected Negative"),
    }
}

#[test]
fn unknown_ingress_is_invalid_formation() {
    let mut cfg = default_config();
    cfg.ingress = "spiral".to_string();
    match cfg.validated(DEFAULT_KINEMATIC_TICKS) {
        Err(ConfigError::InvalidFormation { reason }) => {
            assert_eq!(reason, "ingress must be formation or gaussian, got spiral")
        }
        _ => panic!("expected InvalidFormation"),
    }
}

#[test]
fn gaussian_ingress_checks_spreads() {
    let mut cfg = default_config();
    cfg.ingress = "gaussian".to_string();
    assert!(cfg.validated(DEFAULT_KINEMATIC_TICKS).is_ok());
    let mut cfg = default_config();
    cfg.ingress = "gaussian".to_string();
    cfg.sigma_y_m = 0.0f64.to_bits();
    match cfg.validated(DEFAULT_KINEMATIC_TICKS) {
        Err(ConfigError::NonPositive { field, .. }) => assert_eq!(field, "sigma_y_m"),
        _ => panic!("expected NonPositive"),
    }
    let mut cfg = default_config();
    cfg.sigma_x_m = 0.0f64.to_bits();
    assert!(cfg.validated(DEFAULT_KINEMATIC_TICKS).is_ok());
}

#[test]
fn formation_counts_are_checked() {
    let mut cfg = default_config();
    cfg.enemy_count = 0;
    match cfg.validated(DEFAULT_KINEMATIC_TICKS) {
        Err(ConfigError::InvalidFormation { reason }) => assert_eq!(reason, "enemy_count must be >= 1"),
        _ => panic!("expected InvalidFormation"),
    }
    let mut cfg = default_config();
    cfg.drone_rows = 0;
    match cfg.validated(DEFAULT_KINEMATIC_TICKS) {
        Err(ConfigError::InvalidFormation { reason }) => assert_eq!(reason, "drone_rows must be >= 1"),
        _ => panic!("expected InvalidFormation"),
    }
    let mut cfg = default_config();
    cfg.drones_per_row = 1;
    match cfg.validated(DEFAULT_KINEMATIC_TICKS) {
        Err(ConfigError::InvalidFormation { reason }) => assert_eq!(reason, "drones_per_row must be >= 2"),
        _ => panic!("expected InvalidFormation"),
    }
}

#[test]
fn contact_caps_must_be_built_in() {
    let mut cfg = default_config();
    cfg.max_drone_contacts = 4;
    match cfg.validated(DEFAULT_KINEMATIC_TICKS) {
        Err(ConfigError::ContactCapMismatch { expected, targets, drones }) => {
            assert_eq!((expected, targets, drones), (8, 8, 4));
        }
        _ => panic!("expected ContactCapMismatch"),
    }
}

#[test]
fn drone_count_is_rows_times_per_row() {
    assert_eq!(default_config().drone_count(), 12);
}

#[test]
fn algorithms_by_name() {
    assert_eq!(algorithm_by_name("nearest_in_range").unwrap(), AlgorithmKind::NearestInRange);
    assert_eq!(algorithm_by_name("closer_than_friend").unwrap(), AlgorithmKind::CloserThanFriend);
    assert_eq!(algorithm_by_name("transformer").unwrap(), AlgorithmKind::Transformer);
    match algorithm_by_name("greedy") {
        Err(ConfigError::UnknownAlgorithm { name }) => assert_eq!(name, "greedy"),
        _ => panic!("expected UnknownAlgorithm"),
    }
}

#[test]
fn default_path_length_and_max_ticks() {
    // The caller measures the path in metres: 2R + start + end margins + row gap.
    let cfg = default_config();
    let radius = f64::from_bits(cfg.radius_m);
    let path = (radius + f64::from_bits(cfg.end_margin_m))
        - (-radius - f64::from_bits(cfg.start_margin_m))
        + f64::from_bits(cfg.row_gap_m);
    assert!((path - 600.0).abs() < 1e-12);
    let step = f64::from_bits(cfg.speed_m_s) * f64::from_bits(cfg.dt_s);
    let kinematic = (path / step).ceil() as u64;
    let kill_ticks = (f64::from_bits(cfg.t_kill_s) / f64::from_bits(cfg.dt_s)).ceil() as u64;
    let cfg = cfg.validated(kinematic).unwrap();
    assert_eq!(cfg.max_ticks, 2500);
    assert_eq!(kill_ticks, 5);
    assert_eq!(cfg.drone_count(), 12);
}
