use vstd::prelude::*;

verus! {

/// A timestamp used to resolve conflicts in the [`crate::LWWElementDictionary`].
/// Wraps a `u64` counting nanoseconds since the UNIX epoch; any monotonically
/// comparable scalar would satisfy the same contract. Immutable once created.
#[derive(Debug, Clone, Copy, PartialEq, Eq, Structural, PartialOrd, Ord, Hash)]
pub struct Timestamp(u64);

impl View for Timestamp {
    type V = u64;

    closed spec fn view(&self) -> u64 {
        self.0
    }
}

impl Timestamp {
    /// Relies on `std::time::SystemTime::now` and
    /// `SystemTime::duration_since(UNIX_EPOCH)`: the current wall-clock
    /// reading as nanoseconds since the epoch, saturating at `u64::MAX`.
    /// Nothing can be promised of the value returned by the clock; a clock
    /// reading earlier than the epoch is a fatal clock fault and panics.
    #[verifier::external_body]
    pub fn now() -> Self {
        let duration = std::time::SystemTime::now()
            .duration_since(std::time::UNIX_EPOCH)
            .expect("Time went backwards");
        Timestamp(
            duration
                .as_secs()
                .saturating_mul(1_000_000_000)
                .saturating_add(duration.subsec_nanos() as u64),
        )
    }

    /// The raw scalar carried by this timestamp.
    pub fn value(&self) -> (v: u64)
        ensures
            v == self@,
    {
        self.0
    }

    /// Builds a timestamp from an explicit raw scalar, so that callers can
    /// propagate timestamps across replicas or test deterministically.
    pub fn from_value(value: u64) -> (t: Timestamp)
        ensures
            t@ == value,
    {
        Timestamp(value)
    }
}

} // verus!
