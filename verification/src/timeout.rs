use vstd::prelude::*;
use crate::computation::Computation;
use crate::computation::Measured;
use crate::poll::Poll;
use crate::reactor::Reactor;
use crate::state::lemma_extends_refl;
use crate::state::ReactorView;
use crate::waker::Waker;

verus! {

/// The suspension primitive: yields control for at least a given duration.
///
/// Resumed for the first time it registers a timer and suspends; resumed
/// again it completes, whoever woke it. A timeout of zero completes at once
/// and never touches the timers.
#[derive(Clone, Copy, Debug, PartialEq, Eq, Structural)]
pub enum Timeout {
    /// Not resumed yet; holds the duration to sleep.
    NotStarted(u64),
    /// The timer is registered; the next resumption completes.
    Armed,
}

impl Timeout {
    /// A timeout that has not started.
    pub fn new(duration: u64) -> (timeout: Timeout)
        ensures
            timeout == Timeout::NotStarted(duration),
    {
        Timeout::NotStarted(duration)
    }

    /// The sleep that is still ahead: the duration of a timeout that has
    /// not started, unless it is zero.
    pub open spec fn sleep_ahead(&self) -> Option<u64> {
        match *self {
            Timeout::NotStarted(d) => if d > 0 {
                Some(d)
            } else {
                None
            },
            Timeout::Armed => None,
        }
    }

    /// Moves the timeout on by one resumption and says what the resumption
    /// has to do: `Some(d)` where a timer for `d` units has to be registered
    /// and the task suspends, `None` where the task goes on.
    pub fn step(&mut self) -> (sleep: Option<u64>)
        ensures
            sleep == old(self).sleep_ahead(),
            sleep is Some ==> *final(self) == Timeout::Armed,
            sleep is None ==> *final(self) == *old(self),
    {
        match *self {
            Timeout::NotStarted(duration) => {
                if duration == 0 {
                    None
                } else {
                    *self = Timeout::Armed;
                    Some(duration)
                }
            },
            Timeout::Armed => None,
        }
    }

    /// Resumes the timeout on behalf of the task that `waker` names, inside
    /// whatever computation that task runs.
    ///
    /// A timeout that has not started and has a duration registers a timer
    /// for it, due that long after the latest clock reading, and suspends.
    /// Any other completes, whoever woke it, and leaves the reactor alone: a
    /// timeout of zero never enters the timers.
    pub fn resume<C>(&mut self, reactor: &mut Reactor<C>, waker: Waker) -> (res: Poll)
        requires
            old(reactor)@.wf(),
        ensures
            final(reactor)@.wf(),
            old(reactor)@.extends_to(final(reactor)@),
            res is Pending <==> old(self).sleep_ahead() is Some,
            res is Ready ==> *final(self) == *old(self) && final(reactor)@ == old(reactor)@,
            res is Pending ==> *final(self) == Timeout::Armed && final(reactor)@.awaited(
                waker.task_id,
            ),
            old(self).sleep_ahead() matches Some(d) ==> final(reactor)@ == old(reactor)@.timed(
                d,
                waker,
            ),
    {
        match self.step() {
            Some(duration) => {
                reactor.add_timer(duration, waker);
                Poll::Pending
            },
            None => {
                proof {
                    lemma_extends_refl(reactor@);
                }
                Poll::Ready
            },
        }
    }
}

impl Measured for Timeout {
    /// A timeout that still has to sleep needs two resumptions, any other
    /// needs one.
    open spec fn weight(&self) -> nat {
        if self.sleep_ahead() is Some {
            2
        } else {
            1
        }
    }
}

impl Computation for Timeout {
    /// Exactly what `resume` does.
    open spec fn resumes_to(
        &self,
        reactor: ReactorView<Timeout>,
        waker: Waker,
        after: Timeout,
        later: ReactorView<Timeout>,
        res: Poll,
    ) -> bool {
        match self.sleep_ahead() {
            Some(d) => res is Pending && after == Timeout::Armed && later == reactor.timed(
                d,
                waker,
            ),
            None => res is Ready && after == *self && later == reactor,
        }
    }

    fn poll(&mut self, reactor: &mut Reactor<Timeout>, waker: Waker) -> (res: Poll) {
        self.resume(reactor, waker)
    }
}

} // verus!
