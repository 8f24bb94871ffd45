use chrome_dom_diff::memory::MemoryMonitor;

#[test]
fn test_monitor_creation() {
    let monitor = MemoryMonitor::new();

    assert_eq!(monitor.current_kb(), monitor.baseline_kb());
    assert_eq!(monitor.peak_kb(), monitor.baseline_kb());
    assert_eq!(monitor.sample_count(), 0);
}

#[test]
fn test_detect_leak() {
    let mut monitor = MemoryMonitor::with_baseline(10 * 1024 * 1024);

    monitor.sample(10 * 1024 * 1024, 1_000_000);

    // one sample is not enough, whatever the rate
    assert!(!monitor.detect_leak());

    // two megabytes of growth over one hour: rate above the threshold
    monitor.sample(12 * 1024 * 1024, 3_600_000_000);

    assert!(monitor.detect_leak());
}

#[test]
fn memory_test_reset() {
    let mut monitor = MemoryMonitor::with_baseline(1024);

    monitor.sample(2048, 1_000);
    monitor.sample(4096, 1_000);

    assert_eq!(monitor.sample_count(), 2);

    monitor.reset();

    assert_eq!(monitor.sample_count(), 0);
    assert_eq!(monitor.growth_rate(), 0);
    assert_eq!(monitor.baseline_kb(), monitor.current_kb());
}

#[test]
fn test_summary() {
    let mut monitor = MemoryMonitor::with_baseline(2 * 1024 * 1024);
    monitor.sample(2 * 1024 * 1024, 1_000);

    let summary = monitor.summary();

    assert_eq!(summary.sample_count, 1);
    assert_eq!(summary.baseline_kb, monitor.baseline_kb());
    assert_eq!(summary.current_kb, monitor.current_kb());
}

#[test]
fn test_summary_report() {
    let mut monitor = MemoryMonitor::with_baseline(2 * 1024 * 1024);
    monitor.sample(2 * 1024 * 1024, 1_000);

    let summary = monitor.summary();
    let report = summary.report();

    assert!(report.contains("内存监控报告"));
    assert!(report.contains("基线"));
    assert!(report.contains("当前"));
}

#[test]
fn test_peak_tracking() {
    let mut monitor = MemoryMonitor::with_baseline(1024 * 1024);

    monitor.sample(2 * 1024 * 1024, 1_000);

    assert!(monitor.peak_kb() >= monitor.baseline_kb());
}

#[test]
fn test_growth_rate_formula() {
    let mut monitor = MemoryMonitor::with_baseline(0);
    // 1000 bytes over 1 second extrapolates to 3 600 000 bytes per hour
    monitor.sample(1000, 1_000_000);
    assert_eq!(monitor.growth_rate(), 3_600_000);
}

#[test]
fn test_growth_kb_saturates_at_zero() {
    let mut monitor = MemoryMonitor::with_baseline(4 * 1024 * 1024);
    monitor.sample(1024 * 1024, 1_000);
    let summary = monitor.summary();
    assert_eq!(summary.growth_kb(), 0);
}
