use cpu_hotplug::estimate::{
    counter_delta, frequency_threshold_khz, total_idle_time, utilization_from_idle,
};
use cpu_hotplug::policy::{classify, Aggregate, ConfigError, LoadLevel, ThresholdPolicy};

#[test]
fn counter_delta_saturates_on_reset() {
    assert_eq!(counter_delta(1000, 700), 0);
    assert_eq!(counter_delta(700, 1000), 300);
    assert_eq!(utilization_from_idle(counter_delta(1000, 700), 1_000_000), 10_000);
}

#[test]
fn utilization_formula() {
    assert_eq!(utilization_from_idle(250_000, 1_000_000), 7_500);
    assert_eq!(utilization_from_idle(1_000_000, 1_000_000), 0);
    assert_eq!(utilization_from_idle(5_000_000, 1_000_000), 0);
    assert_eq!(utilization_from_idle(1, 3), 6_666);
    assert_eq!(utilization_from_idle(0, u64::MAX), 10_000);
}

#[test]
fn idle_time_sums_states() {
    assert_eq!(total_idle_time(&vec![1, 2, 3]), Some(6));
    assert_eq!(total_idle_time(&Vec::new()), Some(0));
    assert_eq!(total_idle_time(&vec![u64::MAX, 1]), None);
    assert_eq!(total_idle_time(&vec![u64::MAX - 1, 1]), Some(u64::MAX));
}

#[test]
fn frequency_threshold_interpolates() {
    assert_eq!(frequency_threshold_khz(50, 800_000, 3_000_000), 1_900_000);
    assert_eq!(frequency_threshold_khz(0, 800_000, 3_000_000), 800_000);
    assert_eq!(frequency_threshold_khz(100, 800_000, 3_000_000), 3_000_000);
}

#[test]
fn threshold_policy_validation() {
    let p = ThresholdPolicy::new(85, 50).unwrap();
    assert_eq!((p.upper_percent, p.lower_percent), (85, 50));
    assert_eq!(ThresholdPolicy::new(50, 50).err(), Some(ConfigError::NotOrdered));
    assert_eq!(ThresholdPolicy::new(40, 50).err(), Some(ConfigError::NotOrdered));
    assert_eq!(ThresholdPolicy::new(101, 50).err(), Some(ConfigError::OutOfRange));
    assert!(ThresholdPolicy::new(100, 0).is_ok());
}

#[test]
fn classify_is_strict_at_both_thresholds() {
    let p = ThresholdPolicy::new(85, 50).unwrap();
    let c = |total: u128, samples: u64| classify(&Aggregate { total, samples }, &p);
    assert_eq!(c(5_000, 1), LoadLevel::Normal);
    assert_eq!(c(8_500, 1), LoadLevel::Normal);
    assert_eq!(c(4_990, 1), LoadLevel::Low);
    assert_eq!(c(8_510, 1), LoadLevel::High);
    // Mean of 40% and 60% is 50%: on the threshold.
    assert_eq!(c(4_000 + 6_000, 2), LoadLevel::Normal);
    assert_eq!(c(4_000 + 5_999, 2), LoadLevel::Low);
    assert_eq!(c(0, 0), LoadLevel::Unknown);
}
