use vstd::prelude::*;
use crate::computation::Computation;
use crate::computation::Measured;
use crate::computation::Task;
use crate::poll::Poll;
use crate::poll::StaleWakeError;
use crate::reactor::run;
use crate::reactor::Reactor;
use crate::reactor::RunReport;
use crate::sleep_task_laws::lemma_main_task_spawned;
use crate::sleep_task_laws::lemma_run_of_sleepers_completes;
use crate::state::lemma_extends_refl;
use crate::state::lemma_extends_trans;
use crate::state::lemma_spawn_steps;
use crate::state::ReactorView;
use crate::timeout::Timeout;
use crate::waker::Waker;

verus! {

/// The clock units of one second, for a clock that counts nanoseconds.
pub const SECOND: u64 = 1_000_000_000;

/// A task that sleeps and spawns in turn: in each round it sleeps for
/// `pause`, then spawns a sub-task that sleeps for `sub_pause`. It completes
/// right after spawning the last sub-task. With no rounds left it only
/// finishes the sleep it is in.
#[derive(Clone, Copy, Debug, PartialEq, Eq, Structural)]
pub struct SleepTask {
    /// The sub-tasks still to be spawned.
    pub rounds: u64,
    /// How long the task sleeps before it spawns a sub-task.
    pub pause: u64,
    /// How long a sub-task sleeps.
    pub sub_pause: u64,
    /// The sleep in progress.
    pub timeout: Timeout,
}

/// The sub-task that sleeps for `pause`, before it is resumed for the first
/// time.
pub open spec fn sub_task_of(pause: u64) -> SleepTask {
    SleepTask { rounds: 0, pause: 0, sub_pause: 0, timeout: Timeout::NotStarted(pause) }
}

/// The state of the reactor after a sub-task that sleeps for `pause` has
/// been spawned in state `reactor`: it has registered its timer and is
/// suspended, or, with nothing to sleep, has completed on the spot. Nothing
/// happens where the ids are used up.
pub open spec fn sub_spawned(reactor: ReactorView<SleepTask>, pause: u64) -> ReactorView<
    SleepTask,
> {
    let id = reactor.next_id;
    if id == usize::MAX {
        reactor
    } else if pause > 0 {
        reactor.numbered().timed(pause, Waker { task_id: id }).suspended(
            id,
            Task { task: SleepTask { timeout: Timeout::Armed, ..sub_task_of(pause) } },
        )
    } else {
        reactor.numbered().completed(id)
    }
}

/// What becomes of `task`, resumed as the task of `waker` in state
/// `reactor`: the task afterwards, the state of the reactor afterwards, and
/// what the task reports.
pub open spec fn resumed(task: SleepTask, reactor: ReactorView<SleepTask>, waker: Waker) -> (
    SleepTask,
    ReactorView<SleepTask>,
    Poll,
)
    decreases task.rounds,
{
    if task.timeout.sleep_ahead() is Some {
        (
            SleepTask { timeout: Timeout::Armed, ..task },
            reactor.timed(task.timeout.sleep_ahead()->0, waker),
            Poll::Pending,
        )
    } else if task.rounds == 0 {
        (task, reactor, Poll::Ready)
    } else if task.rounds == 1 {
        (SleepTask { rounds: 0, ..task }, sub_spawned(reactor, task.sub_pause), Poll::Ready)
    } else {
        resumed(
            SleepTask {
                rounds: (task.rounds - 1) as u64,
                timeout: Timeout::NotStarted(task.pause),
                ..task
            },
            sub_spawned(reactor, task.sub_pause),
            waker,
        )
    }
}

impl SleepTask {
    /// A task that goes through `rounds` rounds.
    pub fn new(rounds: u64, pause: u64, sub_pause: u64) -> (task: SleepTask)
        ensures
            task == (SleepTask {
                rounds,
                pause,
                sub_pause,
                timeout: Timeout::NotStarted(
                    if rounds > 0 {
                        pause
                    } else {
                        0
                    },
                ),
            }),
    {
        let first = if rounds > 0 {
            pause
        } else {
            0
        };
        SleepTask { rounds, pause, sub_pause, timeout: Timeout::new(first) }
    }

    /// A sub-task: sleeps for `pause`, then completes.
    pub fn sub_task(pause: u64) -> (task: SleepTask)
        ensures
            task == sub_task_of(pause),
    {
        SleepTask { rounds: 0, pause: 0, sub_pause: 0, timeout: Timeout::new(pause) }
    }
}

impl Measured for SleepTask {
    /// The sleep in progress, and for every round left one sub-task and
    /// the sleep that follows it.
    open spec fn weight(&self) -> nat {
        self.timeout.weight() + 3 * (self.rounds as nat)
    }
}

impl Computation for SleepTask {
    /// Exactly what `resumed` says.
    open spec fn resumes_to(
        &self,
        reactor: ReactorView<SleepTask>,
        waker: Waker,
        after: SleepTask,
        later: ReactorView<SleepTask>,
        res: Poll,
    ) -> bool {
        (after, later, res) == resumed(*self, reactor, waker)
    }

    /// Goes on until the sleep in progress suspends or the last round is
    /// done: whenever a sleep is over and a round is left, spawns a sub-task
    /// and, unless that was the last round, starts the next sleep.
    fn poll(&mut self, reactor: &mut Reactor<SleepTask>, waker: Waker) -> (res: Poll)
        ensures
            final(self).rounds <= old(self).rounds,
            res is Ready ==> final(self).rounds == 0,
            res is Pending ==> final(self).timeout == Timeout::Armed,
        decreases old(self).rounds,
    {
        let ghost before = reactor@;
        let ghost start = *self;
        proof {
            lemma_extends_refl(before);
        }
        loop
            invariant
                before == old(reactor)@,
                start == *old(self),
                reactor@.wf(),
                reactor@.running.contains(waker.task_id),
                before.extends_to(reactor@),
                reactor@.potential() + self.weight() <= before.potential() + start.weight(),
                self.rounds <= start.rounds,
                resumed(*self, reactor@, waker) == resumed(start, before, waker),
            decreases self.rounds,
        {
            let ghost head = reactor@;
            match self.timeout.resume(reactor, waker) {
                Poll::Pending => {
                    proof {
                        lemma_extends_trans(before, head, reactor@);
                    }
                    return Poll::Pending;
                },
                Poll::Ready => {},
            }
            if self.rounds == 0 {
                return Poll::Ready;
            }
            let ghost mid = reactor@;
            match reactor.next_task_id() {
                Some(sub_id) => {
                    let mut sub = SleepTask::sub_task(self.sub_pause);
                    let ghost fresh = sub;
                    let res = sub.poll(reactor, Waker::new(sub_id));
                    let ghost polled = reactor@;
                    reactor.settle(sub_id, Task::new(sub), res);
                    proof {
                        lemma_spawn_steps(mid, polled, Task { task: sub }, res, fresh.weight());
                        lemma_extends_trans(before, mid, reactor@);
                        assert(reactor@ == sub_spawned(mid, self.sub_pause));
                    }
                },
                None => {},
            }
            self.rounds = self.rounds - 1;
            if self.rounds == 0 {
                return Poll::Ready;
            }
            self.timeout = Timeout::new(self.pause);
        }
    }
}

/// The main task of the sample, before it is resumed for the first time.
pub open spec fn main_task() -> SleepTask {
    SleepTask {
        rounds: 10,
        pause: SECOND,
        sub_pause: (10 * SECOND) as u64,
        timeout: Timeout::NotStarted(SECOND),
    }
}

/// The main task of the sample: ten rounds of sleeping a second and
/// spawning a sub-task that sleeps ten seconds.
pub fn sleep_task() -> (task: SleepTask)
    ensures
        task == main_task(),
{
    SleepTask::new(10, SECOND, 10 * SECOND)
}

/// A sub-task of the sample: sleeps ten seconds.
pub fn sleep_sub_task() -> (task: SleepTask)
    ensures
        task == sub_task_of((10 * SECOND) as u64),
{
    SleepTask::sub_task(10 * SECOND)
}

/// Runs the sample to quiescence on a reactor of its own and reports what
/// completed, in order. The run never fails: the main task and its ten
/// sub-tasks are spawned, and all eleven complete, each of them once.
pub fn launch() -> (res: Result<RunReport, StaleWakeError>)
    ensures
        res matches Ok(report) && {
            &&& report.spawned == 11
            &&& report.finished@.len() == 11
            &&& report.complete()
            &&& exists|spawned: ReactorView<SleepTask>, end: ReactorView<SleepTask>, rounds: nat|
                #![trigger spawned.runs_to(end, rounds)]
                ReactorView::<SleepTask>::fresh().spawned_to(main_task(), spawned)
                    && spawned.runs_to(end, rounds) && report.tells(end)
        },
{
    let res = run(sleep_task());
    proof {
        let fresh = ReactorView::<SleepTask>::fresh();
        match &res {
            Ok(report) => {
                let (spawned, end, rounds) = choose|
                    spawned: ReactorView<SleepTask>,
                    end: ReactorView<SleepTask>,
                    rounds: nat,
                |
                    #![trigger spawned.runs_to(end, rounds)]
                    fresh.spawned_to(main_task(), spawned) && spawned.runs_to(end, rounds)
                        && report.tells(end);
                lemma_main_task_spawned(spawned);
                lemma_run_of_sleepers_completes(spawned, end, rounds, 0, 12);
            },
            Err(e) => {
                let (spawned, end, rounds) = choose|
                    spawned: ReactorView<SleepTask>,
                    end: ReactorView<SleepTask>,
                    rounds: nat,
                |
                    fresh.fails_to(main_task(), spawned, end, rounds, e.task_id);
                lemma_main_task_spawned(spawned);
                lemma_run_of_sleepers_completes(spawned, end, rounds, e.task_id, 12);
            },
        }
    }
    res
}

} // verus!
