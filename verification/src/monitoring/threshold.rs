//! Alert levels for threshold-triggered alerting.

use vstd::prelude::*;

verus! {

/// How severe a triggered threshold is.
#[derive(Debug, Clone, Copy, PartialEq, Eq, Structural)]
pub enum ThresholdLevel {
    Warning,
    Critical,
    Fatal,
}

/// The canonical name of each level.
pub open spec fn spec_level_str(l: ThresholdLevel) -> Seq<char> {
    match l {
        ThresholdLevel::Warning => "warning"@,
        ThresholdLevel::Critical => "critical"@,
        ThresholdLevel::Fatal => "fatal"@,
    }
}

/// The level a name denotes, if any.
pub open spec fn spec_level_parse(s: Seq<char>) -> Option<ThresholdLevel> {
    if s == "warning"@ {
        Some(ThresholdLevel::Warning)
    } else if s == "critical"@ {
        Some(ThresholdLevel::Critical)
    } else if s == "fatal"@ {
        Some(ThresholdLevel::Fatal)
    } else {
        None
    }
}

impl ThresholdLevel {
    /// The level's canonical name.
    pub fn as_str(&self) -> (r: &str)
        ensures
            r@ == spec_level_str(*self),
    {
        match self {
            ThresholdLevel::Warning => "warning",
            ThresholdLevel::Critical => "critical",
            ThresholdLevel::Fatal => "fatal",
        }
    }

    /// Parses a canonical level name; any other string is `None`.
    pub fn from_str(s: &str) -> (r: Option<ThresholdLevel>)
        ensures
            r == spec_level_parse(s@),
    {
        if crate::text::str_eq(s, "warning") {
            Some(ThresholdLevel::Warning)
        } else if crate::text::str_eq(s, "critical") {
            Some(ThresholdLevel::Critical)
        } else if crate::text::str_eq(s, "fatal") {
            Some(ThresholdLevel::Fatal)
        } else {
            None
        }
    }

    /// Numeric severity: higher is more severe.
    pub fn priority(&self) -> (r: u8)
        ensures
            r == match *self {
                ThresholdLevel::Warning => 1u8,
                ThresholdLevel::Critical => 2u8,
                ThresholdLevel::Fatal => 3u8,
            },
    {
        match self {
            ThresholdLevel::Warning => 1,
            ThresholdLevel::Critical => 2,
            ThresholdLevel::Fatal => 3,
        }
    }
}

} // verus!
