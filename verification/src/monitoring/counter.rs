//! Monotonic counters.

use vstd::prelude::*;

verus! {

/// A named, monotonically increasing counter. Increments saturate at the
/// largest representable value instead of wrapping.
#[derive(Debug)]
pub struct Counter {
    name: String,
    value: u64,
}

/// Mathematical view of a counter.
pub ghost struct CounterView {
    pub name: Seq<char>,
    pub value: u64,
}

impl View for Counter {
    type V = CounterView;

    closed spec fn view(&self) -> CounterView {
        CounterView { name: self.name@, value: self.value }
    }
}

/// `a + b`, stopping at the largest value.
pub open spec fn sat_add(a: u64, b: u64) -> u64 {
    if a + b > u64::MAX {
        u64::MAX
    } else {
        (a + b) as u64
    }
}

impl Counter {
    /// A named counter starting at zero.
    pub fn new(name: &str) -> (c: Counter)
        ensures
            c@.name == name@,
            c@.value == 0,
    {
        Counter { name: name.to_owned(), value: 0 }
    }

    /// Counts one event.
    pub fn inc(&mut self)
        ensures
            final(self)@.value == sat_add(old(self)@.value, 1),
            final(self)@.name == old(self)@.name,
    {
        if self.value < u64::MAX {
            self.value = self.value + 1;
        }
    }

    /// Counts `value` events at once.
    pub fn inc_by(&mut self, value: u64)
        ensures
            final(self)@.value == sat_add(old(self)@.value, value),
            final(self)@.name == old(self)@.name,
    {
        if value <= u64::MAX - self.value {
            self.value = self.value + value;
        } else {
            self.value = u64::MAX;
        }
    }

    /// The current count.
    pub fn value(&self) -> (v: u64)
        ensures
            v == self@.value,
    {
        self.value
    }

    /// Starts counting from zero again.
    pub fn reset(&mut self)
        ensures
            final(self)@.value == 0,
            final(self)@.name == old(self)@.name,
    {
        self.value = 0;
    }

    /// The counter's name.
    pub fn name(&self) -> (r: &str)
        ensures
            r@ == self@.name,
    {
        self.name.as_str()
    }
}

} // verus!
