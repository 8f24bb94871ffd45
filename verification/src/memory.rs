//! Process-memory monitoring.
//!
//! The monitor folds a stream of memory readings into a baseline, a current
//! and a peak figure, an extrapolated growth rate in bytes per hour, and a
//! sample count; a leak is flagged once a minimum number of samples and a
//! fixed growth-rate threshold are both exceeded. Obtaining the readings is
//! platform I/O and lives with the caller: each sample is handed in as a
//! byte figure plus the microseconds elapsed since the previous one.

use vstd::prelude::*;
use vstd::string::StringExecFns;

verus! {

/// Growth rate above which a leak is flagged, in bytes per hour.
pub const LEAK_RATE_THRESHOLD: u64 = 1048576;

/// Samples needed before a leak may be flagged.
pub const LEAK_MIN_SAMPLES: u64 = 2;

/// The memory monitor's state.
#[derive(Debug)]
pub struct MemoryMonitor {
    baseline: usize,
    current: usize,
    peak: usize,
    growth_rate: u64,
    sample_count: u64,
    cumulative_growth: u64,
}

/// Mathematical view of the monitor.
pub ghost struct MemoryView {
    pub baseline: usize,
    pub current: usize,
    pub peak: usize,
    pub growth_rate: u64,
    pub sample_count: u64,
    pub cumulative_growth: u64,
}

impl View for MemoryMonitor {
    type V = MemoryView;

    closed spec fn view(&self) -> MemoryView {
        MemoryView {
            baseline: self.baseline,
            current: self.current,
            peak: self.peak,
            growth_rate: self.growth_rate,
            sample_count: self.sample_count,
            cumulative_growth: self.cumulative_growth,
        }
    }
}

/// Bytes grown over the baseline in one sample.
pub open spec fn spec_growth(m: MemoryView, bytes: usize) -> int {
    if bytes > m.baseline {
        bytes - m.baseline
    } else {
        0int
    }
}

/// Growth extrapolated to bytes per hour, saturating at the largest value.
pub open spec fn spec_rate(growth: int, elapsed_micros: u64) -> u64 {
    let r = growth * 3600000000 / elapsed_micros as int;
    if r > u64::MAX {
        u64::MAX
    } else {
        r as u64
    }
}

/// `a + b`, stopping at the largest value.
pub open spec fn sat_add_u64(a: u64, b: u64) -> u64 {
    if a + b > u64::MAX {
        u64::MAX
    } else {
        (a + b) as u64
    }
}

/// The monitor after folding in one reading.
pub open spec fn spec_sample(m: MemoryView, bytes: usize, elapsed_micros: u64) -> MemoryView {
    let g = spec_growth(m, bytes);
    MemoryView {
        current: bytes,
        peak: if bytes > m.peak {
            bytes
        } else {
            m.peak
        },
        growth_rate: if elapsed_micros > 0 {
            spec_rate(g, elapsed_micros)
        } else {
            m.growth_rate
        },
        cumulative_growth: if elapsed_micros > 0 {
            sat_add_u64(m.cumulative_growth, if g > u64::MAX {
                u64::MAX
            } else {
                g as u64
            })
        } else {
            m.cumulative_growth
        },
        sample_count: sat_add_u64(m.sample_count, 1),
        ..m
    }
}

/// True when enough samples were taken and the growth rate exceeds the
/// leak threshold.
pub open spec fn spec_leak(m: MemoryView) -> bool {
    m.sample_count >= LEAK_MIN_SAMPLES && m.growth_rate > LEAK_RATE_THRESHOLD
}

impl MemoryMonitor {
    /// A fresh monitor with no readings folded in.
    pub fn new() -> (m: MemoryMonitor)
        ensures
            m@ == (MemoryView {
                baseline: 0,
                current: 0,
                peak: 0,
                growth_rate: 0,
                sample_count: 0,
                cumulative_growth: 0,
            }),
    {
        MemoryMonitor {
            baseline: 0,
            current: 0,
            peak: 0,
            growth_rate: 0,
            sample_count: 0,
            cumulative_growth: 0,
        }
    }

    /// A fresh monitor whose baseline, current and peak figures start at
    /// one initial reading.
    pub fn with_baseline(bytes: usize) -> (m: MemoryMonitor)
        ensures
            m@ == (MemoryView {
                baseline: bytes,
                current: bytes,
                peak: bytes,
                growth_rate: 0,
                sample_count: 0,
                cumulative_growth: 0,
            }),
    {
        MemoryMonitor {
            baseline: bytes,
            current: bytes,
            peak: bytes,
            growth_rate: 0,
            sample_count: 0,
            cumulative_growth: 0,
        }
    }

    /// Folds in one reading of `bytes`, taken `elapsed_micros` after the
    /// previous one: updates the current and peak figures, recomputes the
    /// hourly growth rate (when any time passed), and counts the sample.
    pub fn sample(&mut self, bytes: usize, elapsed_micros: u64)
        ensures
            final(self)@ == spec_sample(old(self)@, bytes, elapsed_micros),
    {
        self.current = bytes;
        if bytes > self.peak {
            self.peak = bytes;
        }
        if elapsed_micros > 0 {
            let growth: usize = if bytes > self.baseline {
                bytes - self.baseline
            } else {
                0
            };
            proof {
                assert((growth as u128) * 3600000000u128 <= 0xFFFFFFFFFFFFFFFFu128
                    * 3600000000u128) by (nonlinear_arith)
                    requires
                        growth as u128 <= 0xFFFFFFFFFFFFFFFFu128,
                ;
            }
            let scaled: u128 = (growth as u128) * 3600000000u128;
            let r: u128 = scaled / (elapsed_micros as u128);
            self.growth_rate = if r > u64::MAX as u128 {
                u64::MAX
            } else {
                r as u64
            };
            let gword: u64 = if (growth as u128) > u64::MAX as u128 {
                u64::MAX
            } else {
                growth as u64
            };
            self.cumulative_growth = if self.cumulative_growth as u128 + gword as u128
                > u64::MAX as u128 {
                u64::MAX
            } else {
                self.cumulative_growth + gword
            };
        }
        self.sample_count = if self.sample_count < u64::MAX {
            self.sample_count + 1
        } else {
            u64::MAX
        };
        proof {
            assert(self@ == spec_sample(old(self)@, bytes, elapsed_micros));
        }
    }

    /// True when a leak is suspected: at least `LEAK_MIN_SAMPLES` samples
    /// and a growth rate above `LEAK_RATE_THRESHOLD` bytes per hour.
    pub fn detect_leak(&self) -> (r: bool)
        ensures
            r == spec_leak(self@),
    {
        self.sample_count >= LEAK_MIN_SAMPLES && self.growth_rate > LEAK_RATE_THRESHOLD
    }

    /// The baseline figure, in whole kilobytes.
    pub fn baseline_kb(&self) -> (r: usize)
        ensures
            r == self@.baseline / 1024,
    {
        self.baseline / 1024
    }

    /// The current figure, in whole kilobytes.
    pub fn current_kb(&self) -> (r: usize)
        ensures
            r == self@.current / 1024,
    {
        self.current / 1024
    }

    /// The peak figure, in whole kilobytes.
    pub fn peak_kb(&self) -> (r: usize)
        ensures
            r == self@.peak / 1024,
    {
        self.peak / 1024
    }

    /// The extrapolated growth rate, in bytes per hour.
    pub fn growth_rate(&self) -> (r: u64)
        ensures
            r == self@.growth_rate,
    {
        self.growth_rate
    }

    /// How many readings were folded in.
    pub fn sample_count(&self) -> (r: u64)
        ensures
            r == self@.sample_count,
    {
        self.sample_count
    }

    /// Restarts monitoring from the current figure: it becomes the new
    /// baseline and peak, and the rate and counters are cleared.
    pub fn reset(&mut self)
        ensures
            final(self)@ == (MemoryView {
                baseline: old(self)@.current,
                current: old(self)@.current,
                peak: old(self)@.current,
                growth_rate: 0,
                sample_count: 0,
                cumulative_growth: 0,
            }),
    {
        self.baseline = self.current;
        self.peak = self.current;
        self.growth_rate = 0;
        self.sample_count = 0;
        self.cumulative_growth = 0;
    }

    /// A snapshot of the monitor's figures.
    pub fn summary(&self) -> (s: MemorySummary)
        ensures
            s.baseline_kb == self@.baseline / 1024,
            s.current_kb == self@.current / 1024,
            s.peak_kb == self@.peak / 1024,
            s.growth_bytes_per_hour == self@.growth_rate,
            s.sample_count == self@.sample_count,
            s.has_leak == spec_leak(self@),
    {
        MemorySummary {
            baseline_kb: self.baseline_kb(),
            current_kb: self.current_kb(),
            peak_kb: self.peak_kb(),
            growth_bytes_per_hour: self.growth_rate(),
            sample_count: self.sample_count(),
            has_leak: self.detect_leak(),
        }
    }
}

/// A snapshot of the monitor's figures.
#[derive(Debug, Clone, Copy)]
pub struct MemorySummary {
    /// Baseline, in kilobytes.
    pub baseline_kb: usize,
    /// Current figure, in kilobytes.
    pub current_kb: usize,
    /// Peak figure, in kilobytes.
    pub peak_kb: usize,
    /// Growth rate, in bytes per hour.
    pub growth_bytes_per_hour: u64,
    /// Number of samples folded in.
    pub sample_count: u64,
    /// Whether a leak is suspected.
    pub has_leak: bool,
}

impl MemorySummary {
    /// A plain-text rendering of the snapshot, figure by figure.
    pub fn report(&self) -> (r: String)
        ensures
            r@ == "内存监控报告:\n- 基线: "@ + crate::text::spec_digits(self.baseline_kb as u64)
                + " KB\n- 当前: "@ + crate::text::spec_digits(self.current_kb as u64)
                + " KB\n- 峰值: "@ + crate::text::spec_digits(self.peak_kb as u64)
                + " KB\n- 增长: "@ + crate::text::spec_digits(
                (if self.current_kb >= self.baseline_kb {
                    self.current_kb - self.baseline_kb
                } else {
                    0
                }) as u64,
            ) + " KB\n- 增长率: "@ + crate::text::spec_digits(self.growth_bytes_per_hour)
                + " bytes/hour\n- 采样次数: "@ + crate::text::spec_digits(self.sample_count)
                + "\n- 泄漏检测: "@ + (if self.has_leak {
                "检测到泄漏"@
            } else {
                "正常"@
            }),
    {
        let mut r = String::new();
        r.append("内存监控报告:\n- 基线: ");
        r.append(crate::text::u64_to_string(self.baseline_kb as u64).as_str());
        r.append(" KB\n- 当前: ");
        r.append(crate::text::u64_to_string(self.current_kb as u64).as_str());
        r.append(" KB\n- 峰值: ");
        r.append(crate::text::u64_to_string(self.peak_kb as u64).as_str());
        r.append(" KB\n- 增长: ");
        r.append(crate::text::u64_to_string(self.growth_kb() as u64).as_str());
        r.append(" KB\n- 增长率: ");
        r.append(crate::text::u64_to_string(self.growth_bytes_per_hour).as_str());
        r.append(" bytes/hour\n- 采样次数: ");
        r.append(crate::text::u64_to_string(self.sample_count).as_str());
        r.append("\n- 泄漏检测: ");
        if self.has_leak {
            r.append("检测到泄漏");
        } else {
            r.append("正常");
        }
        proof {
            assert(Seq::<char>::empty() + "内存监控报告:\n- 基线: "@ =~= "内存监控报告:\n- 基线: "@);
        }
        r
    }

    /// Memory growth over the baseline, in kilobytes.
    pub fn growth_kb(&self) -> (r: usize)
        ensures
            r == if self.current_kb >= self.baseline_kb {
                self.current_kb - self.baseline_kb
            } else {
                0int
            },
    {
        if self.current_kb >= self.baseline_kb {
            self.current_kb - self.baseline_kb
        } else {
            0
        }
    }
}

} // verus!
