use chrome_dom_diff::monitoring::counter::Counter;
use chrome_dom_diff::monitoring::gauge::Gauge;
use chrome_dom_diff::monitoring::threshold::ThresholdLevel;

#[test]
fn test_counter_basic() {
    let mut counter = Counter::new("test");

    assert_eq!(counter.value(), 0);
    counter.inc();
    assert_eq!(counter.value(), 1);
    counter.inc_by(5);
    assert_eq!(counter.value(), 6);
}

#[test]
fn counter_test_counter_reset() {
    let mut counter = Counter::new("test");

    counter.inc();
    counter.inc();
    assert_eq!(counter.value(), 2);

    counter.reset();
    assert_eq!(counter.value(), 0);
}

#[test]
fn test_counter_name_and_saturation() {
    let mut counter = Counter::new("events");
    assert_eq!(counter.name(), "events");
    counter.inc_by(u64::MAX);
    assert_eq!(counter.value(), u64::MAX);
    counter.inc();
    assert_eq!(counter.value(), u64::MAX);
}

#[test]
fn test_gauge_name() {
    let gauge = Gauge::new("memory_mb");
    assert_eq!(gauge.name(), "memory_mb");
}

#[test]
fn test_threshold_level() {
    assert_eq!(ThresholdLevel::Warning.as_str(), "warning");
    assert_eq!(ThresholdLevel::Critical.as_str(), "critical");
    assert_eq!(ThresholdLevel::Fatal.as_str(), "fatal");

    assert_eq!(ThresholdLevel::from_str("warning"), Some(ThresholdLevel::Warning));
    assert_eq!(ThresholdLevel::from_str("unknown"), None);
}

#[test]
fn test_threshold_priority() {
    assert!(ThresholdLevel::Critical.priority() > ThresholdLevel::Warning.priority());
    assert!(ThresholdLevel::Fatal.priority() > ThresholdLevel::Critical.priority());
}

#[test]
fn test_threshold_round_trip() {
    for level in [ThresholdLevel::Warning, ThresholdLevel::Critical, ThresholdLevel::Fatal] {
        assert_eq!(ThresholdLevel::from_str(level.as_str()), Some(level));
    }
}
