//! Where an erosion step's time went.

use vstd::prelude::*;

use std::time::Duration;

verus! {

/// Where a step's time went (a run prints the sum over its steps).
#[derive(Clone, Copy, Debug, Default, PartialEq)]
pub struct StepTimings {
    /// Adding the uplift.
    pub uplift: Duration,
    /// Routing the water, depressions included.
    pub drain: Duration,
    /// The implicit stream-power update along the stack.
    pub incise: Duration,
    /// The diffusion sweep.
    pub diffuse: Duration,
}

/// The sum of two durations as `Duration::saturating_add` gives it: the sum, or the largest
/// duration where the sum would not fit. A function of the two durations alone.
pub uninterp spec fn duration_sum(a: Duration, b: Duration) -> Duration;

/// `a + b` (`Duration::saturating_add`), named [`duration_sum`]; a duration is opaque here, so
/// nothing more is stated of the value.
#[verifier::external_body]
fn add_durations(a: Duration, b: Duration) -> (sum: Duration)
    ensures
        sum == duration_sum(a, b),
{
    a.saturating_add(b)
}

impl std::ops::AddAssign for StepTimings {
    /// Adds each phase's time.
    fn add_assign(&mut self, o: Self)
        ensures
            final(self).uplift == duration_sum(old(self).uplift, o.uplift),
            final(self).drain == duration_sum(old(self).drain, o.drain),
            final(self).incise == duration_sum(old(self).incise, o.incise),
            final(self).diffuse == duration_sum(old(self).diffuse, o.diffuse),
    {
        self.uplift = add_durations(self.uplift, o.uplift);
        self.drain = add_durations(self.drain, o.drain);
        self.incise = add_durations(self.incise, o.incise);
        self.diffuse = add_durations(self.diffuse, o.diffuse);
    }
}

} // verus!
