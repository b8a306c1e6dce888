use vstd::prelude::*;
use crate::poll::Poll;
use crate::reactor::Reactor;
use crate::state::ReactorView;
use crate::waker::Waker;

verus! {

/// A bound on the work a computation has left.
pub trait Measured {
    /// An upper bound on the number of resumptions that this computation and
    /// every task it will still spawn need before all of them have completed.
    /// Unless a computation says otherwise it has nothing left to do.
    open spec fn weight(&self) -> nat {
        0
    }
}

/// A resumable computation that a reactor can host.
///
/// A computation never blocks. When it has to wait it arranges its own
/// wake-up — by registering a timer or posting a wake signal under the waker
/// it was handed — and reports [`Poll::Pending`]. The reactor is passed in
/// explicitly so that the computation can do so, and can spawn further tasks.
///
/// What the reactor promises — that it stays in order, that a run comes to
/// an end — it promises for computations that keep the contract of `poll`.
///
/// A computation whose `poll` is verified spawns a task of its own kind in
/// three steps, which is what `Reactor::do_spawn` does: it takes the next id
/// with `Reactor::next_task_id`, resumes the new computation under a waker
/// for that id, and books the outcome with `Reactor::settle`.
pub trait Computation: Measured + Sized {
    /// What one resumption may do: resumed as the task of `waker` on a
    /// reactor in state `reactor`, this computation can turn into `after`,
    /// leave the reactor in state `later` and report `res`. A computation
    /// that says nothing here may do anything its contract allows.
    open spec fn resumes_to(
        &self,
        reactor: ReactorView<Self>,
        waker: Waker,
        after: Self,
        later: ReactorView<Self>,
        res: Poll,
    ) -> bool {
        true
    }

    /// Resumes the computation as task `waker.task_id`, which the reactor
    /// has taken out of the task table for the time it runs.
    ///
    /// The computation may only add to the reactor: timers, wake signals and
    /// tasks. If it suspends, something pending must name it, so that it is
    /// resumed again. Every resumption uses up some of the weight.
    fn poll(&mut self, reactor: &mut Reactor<Self>, waker: Waker) -> (res: Poll)
        requires
            old(reactor)@.wf(),
            old(reactor)@.running.contains(waker.task_id),
        ensures
            final(reactor)@.wf(),
            old(reactor)@.extends_to(final(reactor)@),
            res is Pending ==> final(reactor)@.awaited(waker.task_id),
            final(reactor)@.potential() + (if res is Pending {
                final(self).weight()
            } else {
                0
            }) < old(reactor)@.potential() + old(self).weight(),
            old(self).resumes_to(old(reactor)@, waker, *final(self), final(reactor)@, res),
    ;
}

/// A task: one suspended computation, owned by the task table while pending.
pub struct Task<C> {
    pub task: C,
}

impl<C> Task<C> {
    /// Wraps a computation.
    pub fn new(computation: C) -> (task: Task<C>)
        ensures
            task.task == computation,
    {
        Task { task: computation }
    }
}

impl<C: Computation> Task<C> {
    /// Resumes the held computation, passing the waker through so that it
    /// can register timers under the same identity.
    pub fn poll(&mut self, reactor: &mut Reactor<C>, waker: Waker) -> (res: Poll)
        requires
            old(reactor)@.wf(),
            old(reactor)@.running.contains(waker.task_id),
        ensures
            final(reactor)@.wf(),
            old(reactor)@.extends_to(final(reactor)@),
            res is Pending ==> final(reactor)@.awaited(waker.task_id),
            final(reactor)@.potential() + (if res is Pending {
                final(self).task.weight()
            } else {
                0
            }) < old(reactor)@.potential() + old(self).task.weight(),
            old(self).task.resumes_to(
                old(reactor)@,
                waker,
                final(self).task,
                final(reactor)@,
                res,
            ),
    {
        self.task.poll(reactor, waker)
    }
}

} // verus!
