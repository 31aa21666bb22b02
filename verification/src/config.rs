//! The parameters of a round and their validation.
//!
//! Real-valued parameters are carried as the IEEE-754 binary64 bit patterns
//! of their values; validation reads only the sign, the exponent and whether
//! the value is zero, all of which the bit pattern shows exactly.
use vstd::prelude::*;
use vstd::string::StringExecFns;
use crate::contact::{MAX_DRONE_CONTACTS, MAX_TARGET_CONTACTS};

verus! {

/// Bit pattern of +infinity; patterns above it with the sign bit clear are NaN.
pub const POSITIVE_INFINITY_BITS: u64 = 0x7ff0_0000_0000_0000;

/// Bit pattern of -0.0.
pub const NEGATIVE_ZERO_BITS: u64 = 0x8000_0000_0000_0000;

/// The value is finite and greater than zero.
pub open spec fn positive_finite(bits: u64) -> bool {
    0 < bits < POSITIVE_INFINITY_BITS
}

/// The value is finite and not less than zero (`-0.0` included).
pub open spec fn nonnegative_finite(bits: u64) -> bool {
    bits < POSITIVE_INFINITY_BITS || bits == NEGATIVE_ZERO_BITS
}

/// The parameters of a round. Fields ending in `_m`, `_s` or `_m_s` are
/// bit patterns of real values (see the module docs).
#[derive(Debug)]
pub struct SimConfig {
    pub radius_m: u64,
    pub enemy_count: u32,
    pub drone_rows: u32,
    pub drones_per_row: u32,
    pub row_gap_m: u64,
    pub speed_m_s: u64,
    pub dt_s: u64,
    /// Seeker range to ground targets.
    pub detection_range_m: u64,
    /// Visual range to other airframes.
    pub friend_detection_range_m: u64,
    pub t_kill_s: u64,
    pub start_margin_m: u64,
    pub end_margin_m: u64,
    pub max_target_contacts: usize,
    pub max_drone_contacts: usize,
    /// Must be true: a drone is spent on its kill.
    pub expend_on_kill: bool,
    /// 0 means: derive it from the flight path when validating.
    pub max_ticks: u64,
    /// The rear row flies in the gaps of the lead row.
    pub stagger_rows: bool,
    /// `formation` or `gaussian`.
    pub ingress: String,
    pub sigma_x_m: u64,
    pub sigma_y_m: u64,
}

#[derive(Debug)]
pub enum ConfigError {
    NonPositive { field: &'static str, value: u64 },
    Negative { field: &'static str, value: u64 },
    ContactCapMismatch { expected: usize, targets: usize, drones: usize },
    Unsupported { flag: &'static str, value: String },
    InvalidFormation { reason: String },
    UnknownAlgorithm { name: String },
}

/// A configuration error as text and numbers.
pub enum ConfigErrorView {
    NonPositive { field: Seq<char>, value: u64 },
    Negative { field: Seq<char>, value: u64 },
    ContactCapMismatch { expected: usize, targets: usize, drones: usize },
    Unsupported { flag: Seq<char>, value: Seq<char> },
    InvalidFormation { reason: Seq<char> },
    UnknownAlgorithm { name: Seq<char> },
}

impl View for ConfigError {
    type V = ConfigErrorView;

    open spec fn view(&self) -> ConfigErrorView {
        match self {
            ConfigError::NonPositive { field, value } => ConfigErrorView::NonPositive {
                field: field@,
                value: *value,
            },
            ConfigError::Negative { field, value } => ConfigErrorView::Negative {
                field: field@,
                value: *value,
            },
            ConfigError::ContactCapMismatch { expected, targets, drones } => ConfigErrorView::ContactCapMismatch {
                expected: *expected,
                targets: *targets,
                drones: *drones,
            },
            ConfigError::Unsupported { flag, value } => ConfigErrorView::Unsupported {
                flag: flag@,
                value: value@,
            },
            ConfigError::InvalidFormation { reason } => ConfigErrorView::InvalidFormation {
                reason: reason@,
            },
            ConfigError::UnknownAlgorithm { name } => ConfigErrorView::UnknownAlgorithm {
                name: name@,
            },
        }
    }
}

impl SimConfig {
    pub open spec fn gaussian(&self) -> bool {
        self.ingress@ == "gaussian"@
    }

    /// The first check the configuration fails, in the order of
    /// `validated`, or none.
    pub open spec fn validation_error(&self) -> Option<ConfigErrorView> {
        if !positive_finite(self.radius_m) {
            Some(ConfigErrorView::NonPositive { field: "radius_m"@, value: self.radius_m })
        } else if !positive_finite(self.speed_m_s) {
            Some(ConfigErrorView::NonPositive { field: "speed_m_s"@, value: self.speed_m_s })
        } else if !positive_finite(self.dt_s) {
            Some(ConfigErrorView::NonPositive { field: "dt_s"@, value: self.dt_s })
        } else if !positive_finite(self.detection_range_m) {
            Some(
                ConfigErrorView::NonPositive {
                    field: "detection_range_m"@,
                    value: self.detection_range_m,
                },
            )
        } else if !positive_finite(self.friend_detection_range_m) {
            Some(
                ConfigErrorView::NonPositive {
                    field: "friend_detection_range_m"@,
                    value: self.friend_detection_range_m,
                },
            )
        } else if !positive_finite(self.t_kill_s) {
            Some(ConfigErrorView::NonPositive { field: "t_kill_s"@, value: self.t_kill_s })
        } else if !positive_finite(self.row_gap_m) {
            Some(ConfigErrorView::NonPositive { field: "row_gap_m"@, value: self.row_gap_m })
        } else if !(self.ingress@ == "formation"@ || self.gaussian()) {
            Some(
                ConfigErrorView::InvalidFormation {
                    reason: "ingress must be formation or gaussian, got "@ + self.ingress@,
                },
            )
        } else if self.gaussian() && !positive_finite(self.sigma_x_m) {
            Some(ConfigErrorView::NonPositive { field: "sigma_x_m"@, value: self.sigma_x_m })
        } else if self.gaussian() && !positive_finite(self.sigma_y_m) {
            Some(ConfigErrorView::NonPositive { field: "sigma_y_m"@, value: self.sigma_y_m })
        } else if !nonnegative_finite(self.start_margin_m) {
            Some(ConfigErrorView::Negative { field: "start_margin_m"@, value: self.start_margin_m })
        } else if !nonnegative_finite(self.end_margin_m) {
            Some(ConfigErrorView::Negative { field: "end_margin_m"@, value: self.end_margin_m })
        } else if self.enemy_count < 1 {
            Some(ConfigErrorView::InvalidFormation { reason: "enemy_count must be >= 1"@ })
        } else if self.drone_rows < 1 {
            Some(ConfigErrorView::InvalidFormation { reason: "drone_rows must be >= 1"@ })
        } else if self.drones_per_row < 2 {
            Some(ConfigErrorView::InvalidFormation { reason: "drones_per_row must be >= 2"@ })
        } else if self.max_target_contacts != MAX_TARGET_CONTACTS || self.max_drone_contacts
            != MAX_DRONE_CONTACTS {
            Some(
                ConfigErrorView::ContactCapMismatch {
                    expected: MAX_TARGET_CONTACTS,
                    targets: self.max_target_contacts,
                    drones: self.max_drone_contacts,
                },
            )
        } else if !self.expend_on_kill {
            Some(ConfigErrorView::Unsupported { flag: "expend_on_kill"@, value: "false"@ })
        } else {
            None
        }
    }

    /// Checks the configuration and fills in the tick limit. Checks, in
    /// order: the radius, speed, tick length, both detection ranges, kill
    /// time and row gap are positive and finite; the ingress is `formation`
    /// or `gaussian`, and for `gaussian` both spreads are positive and
    /// finite; both margins are non-negative and finite; there is at least
    /// one enemy, one row and two drones per row; the contact caps are the
    /// built-in ones; drones expend themselves on a kill. A zero `max_ticks`
    /// becomes `kinematic_ticks + 100` (saturating), where `kinematic_ticks`
    /// is the number of ticks the swarm needs to fly its path,
    /// `ceil(path_length / (speed * dt))`.
    pub fn validated(self, kinematic_ticks: u64) -> (r: Result<SimConfig, ConfigError>)
        ensures
            match r {
                Ok(c) => {
                    &&& self.validation_error() is None
                    &&& c.max_ticks == if self.max_ticks == 0 {
                        if kinematic_ticks + 100 > u64::MAX {
                            u64::MAX
                        } else {
                            (kinematic_ticks + 100) as u64
                        }
                    } else {
                        self.max_ticks
                    }
                    &&& c.same_except_max_ticks(&self)
                },
                Err(e) => self.validation_error() == Some(e@),
            },
            r is Ok <==> {
            &&& positive_finite(self.radius_m)
            &&& positive_finite(self.speed_m_s)
            &&& positive_finite(self.dt_s)
            &&& positive_finite(self.detection_range_m)
            &&& positive_finite(self.friend_detection_range_m)
            &&& positive_finite(self.t_kill_s)
            &&& positive_finite(self.row_gap_m)
            &&& (self.ingress@ == "formation"@ || self.ingress@ == "gaussian"@)
            &&& (self.ingress@ == "gaussian"@ ==> positive_finite(self.sigma_x_m) && positive_finite(self.sigma_y_m))
            &&& nonnegative_finite(self.start_margin_m)
            &&& nonnegative_finite(self.end_margin_m)
            &&& self.enemy_count >= 1
            &&& self.drone_rows >= 1
            &&& self.drones_per_row >= 2
            &&& self.max_target_contacts == MAX_TARGET_CONTACTS
            &&& self.max_drone_contacts == MAX_DRONE_CONTACTS
            &&& self.expend_on_kill
            },
    {
        proof {
            self.law_validation_checks();
        }
        require_positive("radius_m", self.radius_m)?;
        require_positive("speed_m_s", self.speed_m_s)?;
        require_positive("dt_s", self.dt_s)?;
        require_positive("detection_range_m", self.detection_range_m)?;
        require_positive("friend_detection_range_m", self.friend_detection_range_m)?;
        require_positive("t_kill_s", self.t_kill_s)?;
        require_positive("row_gap_m", self.row_gap_m)?;
        let formation = string_is(&self.ingress, "formation");
        let gaussian = string_is(&self.ingress, "gaussian");
        if !formation && !gaussian {
            let mut reason = "ingress must be formation or gaussian, got ".to_owned();
            reason.append(self.ingress.as_str());
            return Err(ConfigError::InvalidFormation { reason });
        }
        if gaussian {
            require_positive("sigma_x_m", self.sigma_x_m)?;
            require_positive("sigma_y_m", self.sigma_y_m)?;
        }
        require_non_negative("start_margin_m", self.start_margin_m)?;
        require_non_negative("end_margin_m", self.end_margin_m)?;
        if self.enemy_count < 1 {
            return Err(ConfigError::InvalidFormation { reason: "enemy_count must be >= 1".to_owned() });
        }
        if self.drone_rows < 1 {
            return Err(ConfigError::InvalidFormation { reason: "drone_rows must be >= 1".to_owned() });
        }
        if self.drones_per_row < 2 {
            return Err(ConfigError::InvalidFormation { reason: "drones_per_row must be >= 2".to_owned() });
        }
        if self.max_target_contacts != MAX_TARGET_CONTACTS || self.max_drone_contacts
            != MAX_DRONE_CONTACTS {
            return Err(
                ConfigError::ContactCapMismatch {
                    expected: MAX_TARGET_CONTACTS,
                    targets: self.max_target_contacts,
                    drones: self.max_drone_contacts,
                },
            );
        }
        if !self.expend_on_kill {
            return Err(ConfigError::Unsupported { flag: "expend_on_kill", value: "false".to_owned() });
        }
        let mut c = self;
        if c.max_ticks == 0 {
            c.max_ticks = kinematic_ticks.saturating_add(100);
        }
        Ok(c)
    }

    /// A configuration passes validation exactly when the radius, speed,
    /// tick length, both detection ranges, kill time and row gap are
    /// positive and finite; the ingress is `formation` or `gaussian`, and for
    /// `gaussian` both spreads are positive and finite; both margins are
    /// non-negative and finite; there is at least one enemy, one row and two
    /// drones per row; the contact caps are the built-in ones; and drones
    /// expend themselves on a kill.
    pub proof fn law_validation_checks(&self)
        ensures
            self.validation_error() is None <==> {
                &&& positive_finite(self.radius_m)
                &&& positive_finite(self.speed_m_s)
                &&& positive_finite(self.dt_s)
                &&& positive_finite(self.detection_range_m)
                &&& positive_finite(self.friend_detection_range_m)
                &&& positive_finite(self.t_kill_s)
                &&& positive_finite(self.row_gap_m)
                &&& (self.ingress@ == "formation"@ || self.ingress@ == "gaussian"@)
                &&& (self.ingress@ == "gaussian"@ ==> positive_finite(self.sigma_x_m) && positive_finite(self.sigma_y_m))
                &&& nonnegative_finite(self.start_margin_m)
                &&& nonnegative_finite(self.end_margin_m)
                &&& self.enemy_count >= 1
                &&& self.drone_rows >= 1
                &&& self.drones_per_row >= 2
                &&& self.max_target_contacts == MAX_TARGET_CONTACTS
                &&& self.max_drone_contacts == MAX_DRONE_CONTACTS
                &&& self.expend_on_kill
            },
    {
    }

    /// The two configurations agree on everything but `max_ticks`.
    pub open spec fn same_except_max_ticks(&self, other: &SimConfig) -> bool {
        &&& self.radius_m == other.radius_m
        &&& self.enemy_count == other.enemy_count
        &&& self.drone_rows == other.drone_rows
        &&& self.drones_per_row == other.drones_per_row
        &&& self.row_gap_m == other.row_gap_m
        &&& self.speed_m_s == other.speed_m_s
        &&& self.dt_s == other.dt_s
        &&& self.detection_range_m == other.detection_range_m
        &&& self.friend_detection_range_m == other.friend_detection_range_m
        &&& self.t_kill_s == other.t_kill_s
        &&& self.start_margin_m == other.start_margin_m
        &&& self.end_margin_m == other.end_margin_m
        &&& self.max_target_contacts == other.max_target_contacts
        &&& self.max_drone_contacts == other.max_drone_contacts
        &&& self.expend_on_kill == other.expend_on_kill
        &&& self.stagger_rows == other.stagger_rows
        &&& self.ingress@ == other.ingress@
        &&& self.sigma_x_m == other.sigma_x_m
        &&& self.sigma_y_m == other.sigma_y_m
    }

    /// Drones in the formation: rows times drones per row.
    pub fn drone_count(&self) -> (r: u32)
        requires
            self.drone_rows * self.drones_per_row <= u32::MAX,
        ensures
            r == self.drone_rows * self.drones_per_row,
    {
        self.drone_rows * self.drones_per_row
    }
}

fn require_positive(field: &'static str, value: u64) -> (r: Result<(), ConfigError>)
    ensures
        match r {
            Ok(()) => positive_finite(value),
            Err(e) => !positive_finite(value) && e@ == (ConfigErrorView::NonPositive { field: field@, value }),
        },
{
    if 0 < value && value < POSITIVE_INFINITY_BITS {
        Ok(())
    } else {
        Err(ConfigError::NonPositive { field, value })
    }
}

fn require_non_negative(field: &'static str, value: u64) -> (r: Result<(), ConfigError>)
    ensures
        match r {
            Ok(()) => nonnegative_finite(value),
            Err(e) => !nonnegative_finite(value) && e@ == (ConfigErrorView::Negative { field: field@, value }),
        },
{
    if value < POSITIVE_INFINITY_BITS || value == NEGATIVE_ZERO_BITS {
        Ok(())
    } else {
        Err(ConfigError::Negative { field, value })
    }
}

/// The string reads exactly `text`.
fn string_is(s: &String, text: &str) -> (r: bool)
    ensures
        r == (s@ == text@),
{
    let other = text.to_owned();
    *s == other
}

} // verus!
