//! Named gauges.

use vstd::prelude::*;

verus! {

/// A named instantaneous-value metric. The numeric cell itself is
/// floating-point state and lives with the unverified monitoring shell;
/// the verified core carries the identity.
#[derive(Debug)]
pub struct Gauge {
    name: String,
}

impl Gauge {
    /// The gauge's name.
    pub closed spec fn spec_name(self) -> Seq<char> {
        self.name@
    }

    /// A named gauge.
    pub fn new(name: &str) -> (g: Gauge)
        ensures
            g.spec_name() == name@,
    {
        Gauge { name: name.to_owned() }
    }

    /// The gauge's name.
    pub fn name(&self) -> (r: &str)
        ensures
            r@ == self.spec_name(),
    {
        self.name.as_str()
    }
}

} // verus!
