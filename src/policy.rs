use vstd::prelude::*;

verus! {

/// The two load thresholds, in percent.
pub struct ThresholdPolicy {
    pub upper_percent: u8,
    pub lower_percent: u8,
}

/// Why a pair of thresholds was refused.
#[derive(PartialEq, Eq, Structural, Debug, Clone, Copy)]
pub enum ConfigError {
    /// A threshold lies above 100%.
    OutOfRange,
    /// The lower threshold is not below the upper one.
    NotOrdered,
}

impl ThresholdPolicy {
    pub open spec fn valid(&self) -> bool {
        self.lower_percent < self.upper_percent <= 100
    }

    /// Accepts thresholds with `lower < upper <= 100`.
    pub fn new(upper_percent: u8, lower_percent: u8) -> (r: Result<ThresholdPolicy, ConfigError>)
        ensures
            r == if upper_percent > 100 || lower_percent > 100 {
                Err::<ThresholdPolicy, ConfigError>(ConfigError::OutOfRange)
            } else if lower_percent >= upper_percent {
                Err(ConfigError::NotOrdered)
            } else {
                Ok(ThresholdPolicy { upper_percent, lower_percent })
            },
            r matches Ok(p) ==> p.valid(),
    {
        if upper_percent > 100 || lower_percent > 100 {
            Err(ConfigError::OutOfRange)
        } else if lower_percent >= upper_percent {
            Err(ConfigError::NotOrdered)
        } else {
            Ok(ThresholdPolicy { upper_percent, lower_percent })
        }
    }
}

/// The system-wide load of one cycle: the sum of the fresh utilizations, in
/// hundredths of a percent, and how many CPUs contributed. The aggregate
/// signal is their mean, `total / samples`.
#[derive(PartialEq, Eq, Structural, Debug, Clone, Copy)]
pub struct Aggregate {
    pub total: u128,
    pub samples: u64,
}

/// Where the aggregate stands against the thresholds.
#[derive(PartialEq, Eq, Structural, Debug, Clone, Copy)]
pub enum LoadLevel {
    /// No CPU contributed a sample.
    Unknown,
    /// The mean lies strictly above the upper threshold.
    High,
    /// The mean lies strictly below the lower threshold.
    Low,
    /// The mean lies between the thresholds, both included.
    Normal,
}

/// The mean of the aggregate, a percentage, lies strictly above `percent`.
pub open spec fn mean_above(a: Aggregate, percent: int) -> bool {
    a.total > percent * 100 * a.samples
}

/// The mean of the aggregate, a percentage, lies strictly below `percent`.
pub open spec fn mean_below(a: Aggregate, percent: int) -> bool {
    a.total < percent * 100 * a.samples
}

pub open spec fn load_level(a: Aggregate, p: ThresholdPolicy) -> LoadLevel {
    if a.samples == 0 {
        LoadLevel::Unknown
    } else if mean_above(a, p.upper_percent as int) {
        LoadLevel::High
    } else if mean_below(a, p.lower_percent as int) {
        LoadLevel::Low
    } else {
        LoadLevel::Normal
    }
}

/// Compares the aggregate with the thresholds: the upper one first, both
/// strictly, so a mean equal to a threshold calls for no action.
pub fn classify(a: &Aggregate, p: &ThresholdPolicy) -> (r: LoadLevel)
    ensures
        r == load_level(*a, *p),
{
    if a.samples == 0 {
        return LoadLevel::Unknown;
    }
    proof {
        let n = a.samples as int;
        let u = p.upper_percent as int;
        let l = p.lower_percent as int;
        assert(u * 100 * n <= 255 * 100 * 0x1_0000_0000_0000_0000) by (nonlinear_arith)
            requires
                0 <= n <= 0x1_0000_0000_0000_0000,
                0 <= u <= 255,
        ;
        assert(l * 100 * n <= 255 * 100 * 0x1_0000_0000_0000_0000) by (nonlinear_arith)
            requires
                0 <= n <= 0x1_0000_0000_0000_0000,
                0 <= l <= 255,
        ;
    }
    let upper: u128 = (p.upper_percent as u128) * 100 * (a.samples as u128);
    let lower: u128 = (p.lower_percent as u128) * 100 * (a.samples as u128);
    if a.total > upper {
        LoadLevel::High
    } else if a.total < lower {
        LoadLevel::Low
    } else {
        LoadLevel::Normal
    }
}

} // verus!
