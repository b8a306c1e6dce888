use vstd::prelude::*;
use crate::reactor::Reactor;

verus! {

/// A cheap, copyable capability that names one task of a reactor.
///
/// Waking through it never runs the task; it only posts a [`NeedRun`] on the
/// reactor's run queue.
#[derive(Clone, Copy, Debug, PartialEq, Eq, Structural)]
pub struct Waker {
    pub task_id: usize,
}

impl Waker {
    /// A waker bound to `task_id`.
    pub fn new(task_id: usize) -> (waker: Waker)
        ensures
            waker.task_id == task_id,
    {
        Waker { task_id }
    }

    /// The task this waker names.
    pub fn task_id(&self) -> (id: usize)
        ensures
            id == self.task_id,
    {
        self.task_id
    }

    /// Invokes the waker: posts a wake signal for its task on the run queue
    /// of `reactor`. Invoking it again posts another one.
    pub fn wake_by_ref<C>(&self, reactor: &mut Reactor<C>)
        ensures
            final(reactor)@ == old(reactor)@.woken(*self),
            old(reactor)@.wf() ==> final(reactor)@.wf(),
            old(reactor)@.extends_to(final(reactor)@),
            final(reactor)@.awaited(self.task_id),
    {
        reactor.wake(*self);
    }

    /// The wake signal that invoking this waker posts.
    pub fn signal(&self) -> (need_run: NeedRun)
        ensures
            need_run == (NeedRun { task_id: self.task_id, waker: *self }),
            need_run.wf(),
    {
        NeedRun { task_id: self.task_id, waker: *self }
    }
}

/// One entry of the run queue: the task to resume and the waker to hand to it.
#[derive(Clone, Copy, Debug, PartialEq, Eq, Structural)]
pub struct NeedRun {
    pub task_id: usize,
    pub waker: Waker,
}

impl NeedRun {
    /// The signal carries the waker of the task it is addressed to.
    pub open spec fn wf(self) -> bool {
        self.waker.task_id == self.task_id
    }
}

} // verus!
