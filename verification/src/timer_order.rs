use vstd::prelude::*;
use vstd::std_specs::cmp::PartialEqSpecImpl;
use vstd::std_specs::cmp::PartialOrdSpecImpl;
use std::cmp::Ordering;
use crate::timer::Timer;

verus! {

/// Timers are equal when they are due at the same time, whoever they wake.
impl PartialEq for Timer {
    fn eq(&self, other: &Timer) -> (equal: bool) {
        self.wakeup_duration == other.wakeup_duration
    }
}

impl PartialEqSpecImpl for Timer {
    open spec fn obeys_eq_spec() -> bool {
        true
    }

    open spec fn eq_spec(&self, other: &Timer) -> bool {
        self.wakeup_duration == other.wakeup_duration
    }
}

/// Timers are ordered by their deadlines alone.
impl PartialOrd for Timer {
    fn partial_cmp(&self, other: &Timer) -> (order: Option<Ordering>) {
        if self.wakeup_duration == other.wakeup_duration {
            Some(Ordering::Equal)
        } else if self.wakeup_duration > other.wakeup_duration {
            Some(Ordering::Greater)
        } else {
            Some(Ordering::Less)
        }
    }
}

impl PartialOrdSpecImpl for Timer {
    open spec fn obeys_partial_cmp_spec() -> bool {
        true
    }

    open spec fn partial_cmp_spec(&self, other: &Timer) -> Option<Ordering> {
        if self.wakeup_duration == other.wakeup_duration {
            Some(Ordering::Equal)
        } else if self.wakeup_duration > other.wakeup_duration {
            Some(Ordering::Greater)
        } else {
            Some(Ordering::Less)
        }
    }
}

impl Timer {
    /// How this timer stands to `other` in firing order: by the deadlines
    /// alone.
    pub fn cmp(&self, other: &Timer) -> (order: Ordering)
        ensures
            order is Equal <==> self.wakeup_duration == other.wakeup_duration,
            order is Greater <==> self.wakeup_duration > other.wakeup_duration,
            order is Less <==> self.wakeup_duration < other.wakeup_duration,
    {
        if self.wakeup_duration == other.wakeup_duration {
            Ordering::Equal
        } else if self.wakeup_duration > other.wakeup_duration {
            Ordering::Greater
        } else {
            Ordering::Less
        }
    }
}

} // verus!
