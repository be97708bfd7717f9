use std::time::Instant;
use vstd::prelude::*;

verus! {

#[verifier::external_type_specification]
#[verifier::external_body]
pub struct ExInstant(Instant);

/// Relies on `std::time::Instant::now`: a reading of the monotonic clock.
/// Nothing is stated of its value.
pub assume_specification[ Instant::now ]() -> Instant;

/// A named span of time, started when the timer is made; the program that
/// runs the library reports how long each named phase took.
#[derive(Debug)]
pub struct ScopeTimer {
    name: String,
    start: Instant,
}

impl View for ScopeTimer {
    type V = Seq<char>;

    /// The timer's name.
    closed spec fn view(&self) -> Seq<char> {
        self.name@
    }
}

impl ScopeTimer {
    /// Starts a timer under the given name.
    pub fn new(name: &str) -> (r: Self)
        ensures
            r@ == name@,
    {
        ScopeTimer { name: name.to_owned(), start: Instant::now() }
    }

    pub fn name(&self) -> (r: &str)
        ensures
            r@ == self@,
    {
        self.name.as_str()
    }

    /// The clock reading taken when the timer was made.
    pub fn start(&self) -> Instant {
        self.start
    }
}

} // verus!
