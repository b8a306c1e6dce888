use vstd::prelude::*;
use std::collections::BTreeMap;
use std::collections::VecDeque;
use crate::computation::Computation;
use crate::computation::Task;
use crate::poll::Poll;
use crate::poll::StaleWakeError;
use crate::state::deadline_after;
use crate::state::lemma_extends_awaited;
use crate::state::lemma_extends_refl;
use crate::state::lemma_dequeued;
use crate::state::lemma_ledger_frame;
use crate::state::lemma_spawn_steps;
use crate::state::lemma_tasks_frame;
use crate::state::lemma_wf_completed;
use crate::state::lemma_wf_numbered;
use crate::state::lemma_wf_suspended;
use crate::state::lemma_wf_fired;
use crate::state::lemma_wf_taken;
use crate::state::lemma_wf_timed;
use crate::state::lemma_weight_insert;
use crate::state::lemma_weight_remove;
use crate::state::names_signal;
use crate::state::names_timer;
use crate::state::signals_of;
use crate::state::ReactorView;
use crate::timer::due_count;
use crate::timer::lemma_due_count_sorted;
use crate::timer::Timer;
use crate::timer::TimerHeap;
use crate::waker::NeedRun;
use crate::waker::Waker;

verus! {

broadcast use vstd::std_specs::btree::group_btree_axioms;

/// A single-threaded reactor whose only event source is time.
///
/// It owns the clock reading, the timers, the run queue of wake signals and
/// the table of suspended tasks. It never blocks and never reads a clock:
/// whoever drives it supplies the readings and does the waiting.
pub struct Reactor<C> {
    now: u64,
    timer_heap: TimerHeap,
    run_queue: VecDeque<NeedRun>,
    task_map: BTreeMap<usize, Task<C>>,
    id_counter: usize,
    finished: Vec<usize>,
    running: Ghost<Set<usize>>,
}

/// What a run leaves behind.
pub struct RunReport {
    /// The ids of the completed tasks, in completion order.
    pub finished: Vec<usize>,
    /// How many tasks were spawned; their ids are `1..=spawned`.
    pub spawned: usize,
    /// The clock reading at the end.
    pub elapsed: u64,
}

impl RunReport {
    /// The report tells what the reactor recorded up to state `end`.
    pub open spec fn tells<C>(&self, end: ReactorView<C>) -> bool {
        &&& self.finished@ == end.finished
        &&& self.spawned + 1 == end.next_id
        &&& self.elapsed == end.clock
    }

    /// Every task that was spawned has completed, each of them once.
    pub open spec fn complete(&self) -> bool {
        &&& forall|id: usize| 0 < id <= self.spawned ==> self.finished@.contains(id)
        &&& forall|i: int|
            0 <= i < self.finished@.len() ==> 0 < (#[trigger] self.finished@[i]) <= self.spawned
        &&& forall|i: int, j: int|
            0 <= i < j < self.finished@.len() ==> (#[trigger] self.finished@[i]) != (
            #[trigger] self.finished@[j])
    }
}

impl<C> View for Reactor<C> {
    type V = ReactorView<C>;

    closed spec fn view(&self) -> ReactorView<C> {
        ReactorView {
            clock: self.now,
            timers: self.timer_heap@,
            ready: self.run_queue@,
            tasks: self.task_map@,
            next_id: self.id_counter,
            finished: self.finished@,
            running: self.running@,
        }
    }
}

impl<C> Reactor<C> {
    /// A reactor at clock reading 0 with nothing pending. Task ids start
    /// at 1.
    pub fn new() -> (reactor: Reactor<C>)
        ensures
            reactor@ == ReactorView::<C>::fresh(),
            reactor@.wf(),
    {
        Reactor {
            now: 0,
            timer_heap: TimerHeap::new(),
            run_queue: VecDeque::new(),
            task_map: BTreeMap::new(),
            id_counter: 1,
            finished: Vec::new(),
            running: Ghost(Set::empty()),
        }
    }

    /// The latest clock reading.
    pub fn now(&self) -> (now: u64)
        ensures
            now == self@.clock,
    {
        self.now
    }

    /// Takes a new clock reading. The clock never runs backwards: a reading
    /// behind the current one is ignored.
    pub fn advance_clock(&mut self, reading: u64)
        ensures
            final(self)@ == old(self)@.clocked(reading),
            old(self)@.wf() ==> final(self)@.wf(),
    {
        if reading > self.now {
            self.now = reading;
        }
        proof {
            if old(self)@.wf() {
                lemma_ledger_frame(old(self)@, self@);
                lemma_tasks_frame(old(self)@, self@);
            }
        }
    }

    /// Whether no task is suspended.
    pub fn is_idle(&self) -> (idle: bool)
        ensures
            idle == self@.tasks.is_empty(),
    {
        self.task_map.is_empty()
    }

    /// The number of pending timers.
    pub fn timer_count(&self) -> (n: usize)
        ensures
            n == self@.timers.len(),
    {
        self.timer_heap.len()
    }

    /// The number of wake signals awaiting the next drain.
    pub fn ready_count(&self) -> (n: usize)
        ensures
            n == self@.ready.len(),
    {
        self.run_queue.len()
    }

    /// The ids of the tasks that ran to completion, in completion order.
    pub fn finished(&self) -> (ids: &Vec<usize>)
        ensures
            ids@ == self@.finished,
    {
        &self.finished
    }

    /// How many tasks have been spawned so far; their ids are `1..=n`.
    pub fn spawned(&self) -> (n: usize)
        requires
            self@.wf(),
        ensures
            n + 1 == self@.next_id,
    {
        self.id_counter - 1
    }

    /// Whether task `task_id` is suspended in the task table.
    pub fn is_pending(&self, task_id: usize) -> (pending: bool)
        ensures
            pending == self@.tasks.contains_key(task_id),
    {
        self.task_map.contains_key(&task_id)
    }

    /// Ends the reactor's life and hands out what it recorded.
    pub fn into_report(self) -> (report: RunReport)
        requires
            self@.wf(),
        ensures
            report.tells(self@),
    {
        RunReport { finished: self.finished, spawned: self.id_counter - 1, elapsed: self.now }
    }

    /// Posts a wake signal for the task that `waker` names. The task is not
    /// resumed here; the signal waits for the next drain of the run queue.
    /// Waking twice posts two signals.
    pub fn wake(&mut self, waker: Waker)
        ensures
            final(self)@ == old(self)@.woken(waker),
            old(self)@.wf() ==> final(self)@.wf(),
            old(self)@.extends_to(final(self)@),
            final(self)@.awaited(waker.task_id),
    {
        let ghost before = self@;
        self.run_queue.push_back(waker.signal());
        proof {
            let after = self@;
            assert(after.ready[before.ready.len() as int].task_id == waker.task_id);
            assert(before.extends_to(after));
            if before.wf() {
                assert forall|id: usize| before.tasks.contains_key(id) && before.awaited(
                    id,
                ) implies after.awaited(id) by {
                    lemma_extends_awaited(before, after, id);
                }
                lemma_ledger_frame(before, after);
                lemma_tasks_frame(before, after);
            }
        }
    }

    /// Registers a timer that wakes `waker` once `duration` units have
    /// passed since the latest clock reading. It goes behind every pending
    /// timer that is due at or before its deadline.
    pub fn add_timer(&mut self, duration: u64, waker: Waker)
        requires
            old(self)@.wf(),
        ensures
            final(self)@.wf(),
            due_count(old(self)@.timers, deadline_after(old(self)@.clock, duration)) <= old(self)@.timers.len(),
            final(self)@ == old(self)@.timed(duration, waker),
            old(self)@.extends_to(final(self)@),
            final(self)@.awaited(waker.task_id),
    {
        let ghost before = self@;
        let wakeup_duration = self.now.saturating_add(duration);
        let timer = Timer { wakeup_duration, waker };
        self.timer_heap.push(timer);
        proof {
            lemma_wf_timed(before, duration, waker);
        }
    }

    /// How long the driver has to wait before the next timer is due, given
    /// that the clock read `elapsed` at the start of the tick. There is
    /// nothing to wait for where a wake signal is queued, a timer is due
    /// already, or no timer is pending.
    pub fn idle_time(&self, elapsed: u64) -> (wait: Option<u64>)
        ensures
            wait == self@.idle_time(elapsed),
    {
        if self.run_queue.len() > 0 {
            return None;
        }
        match self.timer_heap.peek() {
            Some(next_timer) => {
                if elapsed < next_timer.wakeup_duration {
                    Some(next_timer.wakeup_duration - elapsed)
                } else {
                    None
                }
            },
            None => None,
        }
    }

    /// Fires every timer whose deadline is at or before `elapsed`, the clock
    /// reading taken at the start of the tick: each is removed and its waker
    /// invoked, in firing order. No task is resumed here. Returns how many
    /// timers fired.
    pub fn fire_expired(&mut self, elapsed: u64) -> (fired: usize)
        requires
            old(self)@.wf(),
        ensures
            final(self)@.wf(),
            fired == due_count(old(self)@.timers, elapsed),
            fired <= old(self)@.timers.len(),
            final(self)@ == old(self)@.fired(elapsed),
    {
        let ghost before = self@;
        let mut fired: usize = 0;
        let pending = self.timer_heap.len();
        proof {
            lemma_due_count_sorted(before.timers, elapsed);
            assert(before.timers.skip(0) =~= before.timers);
            assert(before.ready + signals_of(before.timers.take(0)) =~= before.ready);
        }
        loop
            invariant
                before.wf(),
                fired <= due_count(before.timers, elapsed) <= before.timers.len() == pending,
                forall|i: int|
                    0 <= i < due_count(before.timers, elapsed) ==> (
                    #[trigger] before.timers[i]).wakeup_duration <= elapsed,
                forall|i: int|
                    due_count(before.timers, elapsed) <= i < before.timers.len() ==> (
                    #[trigger] before.timers[i]).wakeup_duration > elapsed,
                self.timer_heap.wf(),
                self@ == (ReactorView {
                    timers: before.timers.skip(fired as int),
                    ready: before.ready + signals_of(before.timers.take(fired as int)),
                    ..before
                }),
            ensures
                fired == due_count(before.timers, elapsed),
            decreases before.timers.len() - fired,
        {
            let due = match self.timer_heap.peek() {
                Some(next_timer) => next_timer.wakeup_duration <= elapsed,
                None => false,
            };
            proof {
                if self@.timers.len() > 0 {
                    assert(self@.timers[0] == before.timers[fired as int]);
                }
            }
            if !due {
                break ;
            }
            let timer = self.timer_heap.pop().unwrap();
            self.run_queue.push_back(timer.waker.signal());
            proof {
                let k = fired as int;
                assert(before.timers.skip(k).drop_first() =~= before.timers.skip(k + 1));
                assert((before.ready + signals_of(before.timers.take(k))).push(
                    NeedRun { task_id: timer.waker.task_id, waker: timer.waker },
                ) =~= before.ready + signals_of(before.timers.take(k + 1)));
            }
            fired = fired + 1;
        }
        proof {
            lemma_wf_fired(before, elapsed);
        }
        fired
    }

    /// Takes the next free task id for a task that is about to be resumed
    /// for the first time, or `None` once the ids are used up.
    pub fn next_task_id(&mut self) -> (id: Option<usize>)
        requires
            old(self)@.wf(),
        ensures
            final(self)@.wf(),
            id is None <==> old(self)@.next_id == usize::MAX,
            id is None ==> final(self)@ == old(self)@,
            id matches Some(i) ==> i == old(self)@.next_id && final(self)@ == old(self)@.numbered(),
    {
        let current_id = self.id_counter;
        if current_id == usize::MAX {
            None
        } else {
            self.id_counter = current_id + 1;
            proof {
                self.running@ = self.running@.insert(current_id);
                lemma_wf_numbered(old(self)@);
            }
            Some(current_id)
        }
    }

    /// Takes suspended task `task_id` out of the task table so that it can
    /// be resumed. Its absence is the stale wake.
    pub fn take_task(&mut self, task_id: usize) -> (taken: Result<Task<C>, StaleWakeError>)
        ensures
            taken is Err <==> !old(self)@.tasks.contains_key(task_id),
            taken matches Err(e) ==> e.task_id == task_id && final(self)@ == old(self)@,
            taken matches Ok(task) ==> task == old(self)@.tasks[task_id] && final(self)@ == old(self)@.taken(task_id),
            old(self)@.wf() ==> final(self)@.wf(),
    {
        match self.task_map.remove(&task_id) {
            Some(task) => {
                proof {
                    self.running@ = self.running@.insert(task_id);
                    assert(self@.tasks =~= old(self)@.tasks.remove(task_id));
                    if old(self)@.wf() {
                        lemma_wf_taken(old(self)@, task_id);
                    }
                }
                Ok(task)
            },
            None => {
                proof {
                    assert(self@.tasks =~= old(self)@.tasks);
                }
                Err(StaleWakeError { task_id })
            },
        }
    }

    /// Books the outcome of resuming task `task_id`, which was taken out of
    /// the table for it: a suspended task goes back under its id, a
    /// completed one is discarded for good and its id recorded.
    pub fn settle(&mut self, task_id: usize, task: Task<C>, outcome: Poll)
        requires
            old(self)@.wf(),
            old(self)@.running.contains(task_id),
            outcome is Pending ==> old(self)@.awaited(task_id),
        ensures
            final(self)@.wf(),
            final(self)@ == old(self)@.booked(task_id, task, outcome),
    {
        let ghost before = self@;
        match outcome {
            Poll::Pending => {
                self.task_map.insert(task_id, task);
            },
            Poll::Ready => {
                self.finished.push(task_id);
            },
        }
        proof {
            self.running@ = self.running@.remove(task_id);
            match outcome {
                Poll::Pending => {
                    lemma_wf_suspended(before, task_id, task);
                },
                Poll::Ready => {
                    lemma_wf_completed(before, task_id);
                },
            }
        }
    }
}

impl<C: Computation> Reactor<C> {
    /// Spawns `computation` as a new task: takes the next id, binds a waker
    /// to it and resumes the computation at once. A computation that
    /// completes right away never enters the task table; one that suspends
    /// is inserted under its id. Returns the id, or `None` (and does
    /// nothing) once the ids are used up.
    pub fn do_spawn(&mut self, computation: C) -> (spawned: Option<usize>)
        requires
            old(self)@.wf(),
        ensures
            final(self)@.wf(),
            old(self)@.extends_to(final(self)@),
            spawned is None <==> old(self)@.next_id == usize::MAX,
            spawned is None ==> final(self)@ == old(self)@,
            spawned matches Some(id) ==> {
                &&& id == old(self)@.next_id
                &&& id < final(self)@.next_id
                &&& final(self)@.tasks.contains_key(id) || (final(self)@.finished.contains(id))
                &&& final(self)@.potential() < old(self)@.potential() + computation.weight()
                &&& old(self)@.spawned_to(computation, final(self)@)
            },
    {
        let ghost before = self@;
        let task_id = match self.next_task_id() {
            Some(task_id) => task_id,
            None => {
                proof {
                    lemma_extends_refl(before);
                }
                return None;
            },
        };
        let waker = Waker::new(task_id);
        let mut task = Task::new(computation);
        let res = task.poll(self, waker);
        let ghost polled = self@;
        self.settle(task_id, task, res);
        proof {
            lemma_spawn_steps(before, polled, task, res, computation.weight());
            if res is Ready {
                assert(self@.finished.last() == task_id);
            }
            assert(computation.resumes_to(before.numbered(), waker, task.task, polled, res));
        }
        Some(task_id)
    }

    /// Delivers the oldest wake signal: takes its task out of the table,
    /// resumes it with the signal's waker, and puts it back if it suspended
    /// again. `Ok(None)` when no signal is queued. A signal for a task that
    /// is not in the table is the stale wake; the signal is consumed.
    pub fn run_next(&mut self) -> (outcome: Result<Option<Poll>, StaleWakeError>)
        requires
            old(self)@.wf(),
        ensures
            final(self)@.wf(),
            old(self)@.leads_to(final(self)@),
            outcome matches Ok(None) <==> old(self)@.ready.len() == 0,
            outcome matches Ok(None) ==> final(self)@ == old(self)@,
            outcome is Err <==> old(self)@.front_is_stale(),
            outcome matches Err(e) ==> e.task_id == old(self)@.ready[0].task_id && final(self)@
                == old(self)@.dequeued(),
            outcome matches Ok(Some(res)) ==> {
                &&& old(self)@.resumed_to(final(self)@, res)
                &&& old(self)@.delivered_to(final(self)@, res)
                &&& final(self)@.potential() < old(self)@.potential()
            },
    {
        let ghost before = self@;
        let needrun = match self.run_queue.pop_front() {
            Some(needrun) => needrun,
            None => {
                return Ok(None);
            },
        };
        let ghost popped = self@;
        proof {
            assert(popped.ready =~= before.ready.drop_first());
            assert(needrun == before.ready[0]);
            lemma_dequeued(before);
        }
        let mut task = match self.take_task(needrun.task_id) {
            Ok(task) => task,
            Err(e) => {
                return Err(e);
            },
        };
        let ghost taken = self@;
        proof {
            assert(before.tasks.contains_key(needrun.task_id));
            lemma_wf_taken(popped, needrun.task_id);
            lemma_weight_remove(before.tasks, before.next_id as nat, needrun.task_id);
        }
        let res = task.poll(self, needrun.waker);
        let ghost polled = self@;
        self.settle(needrun.task_id, task, res);
        proof {
            let after = self@;
            let id = needrun.task_id;
            assert(!polled.tasks.contains_key(id));
            assert(after.running =~= before.running);
            assert(after.without(id).tasks =~= polled.tasks);
            assert(popped.without(id).tasks =~= taken.tasks);
            match res {
                Poll::Pending => {
                    lemma_weight_insert(polled.tasks, polled.next_id as nat, id, task);
                },
                Poll::Ready => {
                    assert(after.finished.last() == id);
                },
            }
            assert(popped.without(id).extends_to(after.without(id)));
            assert(taken == before.dequeued().taken(id));
            assert(before.tasks[id].task.resumes_to(
                before.dequeued().taken(id),
                before.ready[0].waker,
                task.task,
                polled,
                res,
            ));
        }
        Ok(Some(res))
    }

    /// Drains the run queue: delivers exactly the wake signals that are
    /// queued at the start, oldest first. Signals posted while these are
    /// being delivered wait for the next drain. Returns how many were
    /// delivered; gives up at the first stale wake.
    ///
    /// Success is owed when the queue is empty, and whenever every queued
    /// signal names a suspended task of its own.
    pub fn run_ready(&mut self) -> (drained: Result<usize, StaleWakeError>)
        requires
            old(self)@.wf(),
        ensures
            final(self)@.wf(),
            final(self)@.clock == old(self)@.clock,
            old(self)@.leads_to(final(self)@),
            final(self)@.potential() <= old(self)@.potential(),
            old(self)@.deliverable() ==> drained is Ok,
            old(self)@.ready.len() == 0 ==> final(self)@ == old(self)@,
            drained matches Ok(n) ==> {
                &&& n == old(self)@.ready.len()
                &&& old(self)@.drains_to(final(self)@, n as nat)
                &&& old(self)@.drained_to(final(self)@, n as nat)
                &&& final(self)@.potential() + n <= old(self)@.potential()
            },
            drained matches Err(e) ==> {
                &&& old(self)@.drain_fails(final(self)@, old(self)@.ready.len(), e.task_id)
                &&& names_signal(old(self)@.ready, e.task_id)
                &&& !final(self)@.tasks.contains_key(e.task_id)
            },
    {
        let ghost before = self@;
        let queued = self.run_queue.len();
        let mut delivered: usize = 0;
        proof {
            assert(before.ready.skip(0) =~= before.ready);
            assert(before.ready.take(0).len() == 0);
        }
        while delivered < queued
            invariant
                before == old(self)@,
                before.wf(),
                self@.wf(),
                delivered <= queued == before.ready.len(),
                before.drained_to(self@, delivered as nat),
                before.leads_to(self@),
                self@.potential() + delivered <= before.potential(),
                delivered == 0 ==> self@ == before,
                forall|later: ReactorView<C>| #[trigger]
                    self@.drains_to(later, (queued - delivered) as nat) ==> before.drains_to(
                        later,
                        queued as nat,
                    ),
                forall|later: ReactorView<C>, id: usize| #[trigger]
                    self@.drain_fails(later, (queued - delivered) as nat, id)
                        ==> before.drain_fails(later, queued as nat, id),
                before.deliverable() ==> forall|i: int|
                    delivered <= i < queued ==> self@.tasks.contains_key(
                        (#[trigger] before.ready[i]).task_id,
                    ),
            decreases queued - delivered,
        {
            let ghost current = self@;
            let ghost k = delivered as int;
            proof {
                assert(current.ready[0] == before.ready.skip(k)[0]);
                assert(before.ready[k].task_id == current.ready[0].task_id);
            }
            match self.run_next() {
                Err(e) => {
                    proof {
                        assert(before.ready[k].task_id == e.task_id);
                        assert(self@ == current.dequeued());
                        assert(!current.tasks.contains_key(before.ready[k].task_id));
                        assert(current.drain_fails(self@, (queued - delivered) as nat, e.task_id));
                    }
                    return Err(e);
                },
                Ok(_) => {},
            }
            proof {
                let after = self@;
                let id = current.ready[0].task_id;
                let mid = current.dequeued().without(id);
                let end = after.without(id);
                let left = (queued - delivered) as nat;
                assert forall|later: ReactorView<C>| #[trigger]
                    after.drains_to(later, (left - 1) as nat) implies before.drains_to(
                    later,
                    queued as nat,
                ) by {
                    assert(current.drains_to(later, left));
                }
                assert forall|later: ReactorView<C>, stale: usize| #[trigger]
                    after.drain_fails(later, (left - 1) as nat, stale) implies before.drain_fails(
                    later,
                    queued as nat,
                    stale,
                ) by {
                    assert(!current.front_is_stale());
                    assert(current.drain_fails(later, left, stale));
                }
                assert(mid.extends_to(end));
                assert(before.ready.skip(k + 1) =~= before.ready.skip(k).drop_first());
                assert(before.ready.skip(k + 1).is_prefix_of(after.ready)) by {
                    assert(before.ready.skip(k).drop_first().is_prefix_of(current.ready.drop_first()));
                }
                assert forall|t: Timer| #[trigger] before.timers.contains(t) implies after.timers.contains(
                    t,
                ) by {
                    assert(current.timers.contains(t));
                    assert(mid.timers.contains(t));
                }
                assert forall|other: usize| #[trigger]
                    before.tasks.contains_key(other) && !names_signal(
                        before.ready.take(k + 1),
                        other,
                    ) implies after.tasks.contains_key(other) && after.tasks[other]
                    == before.tasks[other] by {
                    assert(before.ready.take(k + 1)[k] == before.ready[k]);
                    assert(other != id);
                    if names_signal(before.ready.take(k), other) {
                        let i = choose|i: int|
                            0 <= i < before.ready.take(k).len() && (
                            #[trigger] before.ready.take(k)[i]).task_id == other;
                        assert(before.ready.take(k + 1)[i].task_id == other);
                    }
                    assert(current.tasks.contains_key(other));
                    assert(mid.tasks.contains_key(other));
                    assert(end.tasks.contains_key(other));
                }
                assert forall|other: usize| #[trigger]
                    after.tasks.contains_key(other) && !before.tasks.contains_key(
                        other,
                    ) implies before.next_id <= other by {
                    if other == id {
                        assert(current.tasks.contains_key(id));
                    } else {
                        assert(end.tasks.contains_key(other));
                        if mid.tasks.contains_key(other) {
                            assert(current.tasks.contains_key(other));
                        }
                    }
                }
                if before.deliverable() {
                    assert forall|i: int| k + 1 <= i < queued implies after.tasks.contains_key(
                        (#[trigger] before.ready[i]).task_id,
                    ) by {
                        let other = before.ready[i].task_id;
                        assert(before.ready[k].task_id != before.ready[i].task_id);
                        assert(current.tasks.contains_key(other));
                        assert(mid.tasks.contains_key(other));
                        assert(end.tasks.contains_key(other));
                    }
                }
            }
            delivered = delivered + 1;
        }
        proof {
            assert(self@.drains_to(self@, (queued - delivered) as nat));
        }
        Ok(delivered)
    }

    /// One tick of the event loop, for a driver that has read the clock as
    /// `elapsed` at its start and has done whatever waiting `idle_time`
    /// asked for: fires the timers due by `elapsed`, then drains the run
    /// queue, so that the signals of the timers just fired are delivered in
    /// this same tick. Returns whether the task table is empty, which ends
    /// the loop.
    pub fn tick(&mut self, elapsed: u64) -> (idle: Result<bool, StaleWakeError>)
        requires
            old(self)@.wf(),
        ensures
            final(self)@.wf(),
            final(self)@.clock == old(self)@.clocked(elapsed).clock,
            old(self)@.leads_to(final(self)@),
            final(self)@.potential() <= old(self)@.potential(),
            old(self)@.clocked(elapsed).fired(elapsed).deliverable() ==> idle is Ok,
            old(self)@.clocked(elapsed).fired(elapsed).ready.len() == 0 ==> final(self)@ == old(self)@.clocked(elapsed).fired(elapsed),
            idle matches Ok(b) ==> {
                let fired = old(self)@.clocked(elapsed).fired(elapsed);
                &&& b == final(self)@.tasks.is_empty()
                &&& old(self)@.ticks_to(elapsed, final(self)@)
                &&& fired.drained_to(final(self)@, fired.ready.len())
                &&& final(self)@.potential() + fired.ready.len() <= old(self)@.potential()
            },
            idle matches Err(e) ==> {
                &&& old(self)@.tick_fails(elapsed, final(self)@, e.task_id)
                &&& names_signal(old(self)@.clocked(elapsed).fired(elapsed).ready, e.task_id)
                &&& !final(self)@.tasks.contains_key(e.task_id)
            },
    {
        self.advance_clock(elapsed);
        self.fire_expired(elapsed);
        match self.run_ready() {
            Ok(_) => Ok(self.is_idle()),
            Err(e) => Err(e),
        }
    }

    /// Drives the reactor until no task is suspended, on its own clock: where
    /// a driver on a real clock would block until the next timer is due, the
    /// clock is moved forward to that deadline instead. Each round reads the
    /// clock, waits if the next timer lies ahead, and ticks with the reading
    /// taken before the wait.
    ///
    /// On success every task that was ever spawned and is not being resumed
    /// by the caller has completed. With nothing pending at all the loop
    /// ends after one round in which nothing happened.
    pub fn run_until_idle(&mut self) -> (res: Result<(), StaleWakeError>)
        requires
            old(self)@.wf(),
        ensures
            final(self)@.wf(),
            old(self)@.leads_to(final(self)@),
            final(self)@.potential() <= old(self)@.potential(),
            res is Ok ==> final(self)@.tasks.is_empty(),
            res is Ok ==> exists|rounds: nat| old(self)@.runs_to(final(self)@, rounds),
            res is Ok ==> forall|id: usize|
                0 < id < final(self)@.next_id && !final(self)@.running.contains(id) ==> final(self)@.finished.contains(id),
            res matches Err(e) ==> !final(self)@.tasks.contains_key(e.task_id),
            res matches Err(e) ==> exists|rounds: nat|
                old(self)@.run_fails(final(self)@, rounds, e.task_id),
            old(self)@.timers.len() == 0 && old(self)@.ready.len() == 0 ==> res is Ok && final(self)@ == old(self)@,
    {
        let ghost before = self@;
        let ghost done: nat = 0;
        loop
            invariant
                before == old(self)@,
                before.wf(),
                self@.wf(),
                before.leads_to(self@),
                self@.potential() <= before.potential(),
                before.timers.len() == 0 && before.ready.len() == 0 ==> self@ == before,
                forall|later: ReactorView<C>, rounds: nat| #[trigger]
                    self@.runs_to(later, rounds) ==> before.runs_to(later, rounds + done),
                forall|later: ReactorView<C>, rounds: nat, id: usize| #[trigger]
                    self@.run_fails(later, rounds, id) ==> before.run_fails(
                        later,
                        rounds + done,
                        id,
                    ),
            decreases self@.potential(), self@.stalled(),
        {
            let ghost head = self@;
            let elapsed = self.now;
            match self.idle_time(elapsed) {
                Some(wait) => {
                    self.now = elapsed + wait;
                },
                None => {},
            }
            let ghost slept = self@;
            proof {
                lemma_ledger_frame(head, slept);
                lemma_tasks_frame(head, slept);
                assert(slept.timers == head.timers && slept.ready == head.ready);
                assert(slept.clocked(elapsed) == slept);
                lemma_due_count_sorted(head.timers, elapsed);
            }
            proof {
                assert(slept == head.slept());
            }
            let idle = match self.tick(elapsed) {
                Ok(idle) => idle,
                Err(e) => {
                    proof {
                        assert(head.run_fails(self@, 1, e.task_id));
                        assert(before.run_fails(self@, 1 + done, e.task_id));
                    }
                    return Err(e);
                },
            };
            proof {
                let fired = slept.fired(elapsed);
                let after = self@;
                assert(head.slept().ticks_to(head.clock, after));
                if idle {
                    assert(head.runs_to(after, 1));
                    assert(before.runs_to(after, 1 + done));
                } else {
                    assert forall|later: ReactorView<C>, rounds: nat| #[trigger]
                        after.runs_to(later, rounds) implies before.runs_to(
                        later,
                        rounds + (done + 1),
                    ) by {
                        assert(head.runs_to(later, rounds + 1));
                        assert(rounds + 1 + done == rounds + (done + 1));
                    }
                    assert forall|later: ReactorView<C>, rounds: nat, id: usize| #[trigger]
                        after.run_fails(later, rounds, id) implies before.run_fails(
                        later,
                        rounds + (done + 1),
                        id,
                    ) by {
                        if rounds > 0 {
                            assert(head.run_fails(later, rounds + 1, id));
                        }
                        assert(rounds + 1 + done == rounds + (done + 1));
                    }
                }
                if fired.ready.len() == 0 {
                    // nothing was delivered, so nothing was due and nobody was woken
                    assert(head.ready.len() == 0);
                    assert(due_count(head.timers, elapsed) == 0) by {
                        if due_count(head.timers, elapsed) > 0 {
                            assert(signals_of(
                                head.timers.take(due_count(head.timers, elapsed) as int),
                            ).len() > 0);
                        }
                    }
                    assert(fired.timers =~= head.timers);
                    assert(fired.ready =~= head.ready);
                    assert(after == slept);
                    if !idle {
                        assert(exists|id: usize| after.tasks.contains_key(id)) by {
                            if forall|id: usize| !after.tasks.contains_key(id) {
                                assert(after.tasks.dom() =~= Set::<usize>::empty());
                            }
                        }
                        let id = choose|id: usize| after.tasks.contains_key(id);
                        assert(after.awaited(id));
                        assert(names_timer(after.timers, id));
                        assert(head.timers[0].wakeup_duration > elapsed);
                        assert(head.stalled() == 1);
                        assert(after.stalled() == 0);
                    }
                }
            }
            if idle {
                proof {
                    let after = self@;
                    assert forall|id: usize|
                        0 < id < after.next_id && !after.running.contains(
                            id,
                        ) implies after.finished.contains(id) by {
                        assert(after.alive(id) || after.finished.contains(id));
                        assert(after.tasks.dom() =~= Set::<usize>::empty());
                        assert(!after.tasks.contains_key(id));
                    }
                    if before.timers.len() == 0 && before.ready.len() == 0 {
                        assert(self@ == before);
                    }
                }
                return Ok(());
            }
            proof {
                done = done + 1;
            }
        }
    }

    /// Runs `computation` to quiescence: spawns it and drives the reactor
    /// until no task is suspended. On success the computation and every
    /// task spawned along the way have completed.
    pub fn run(&mut self, computation: C) -> (res: Result<(), StaleWakeError>)
        requires
            old(self)@.wf(),
            old(self)@.next_id < usize::MAX,
        ensures
            final(self)@.wf(),
            old(self)@.leads_to(final(self)@),
            old(self)@.next_id < final(self)@.next_id,
            final(self)@.potential() < old(self)@.potential() + computation.weight(),
            res is Ok ==> final(self)@.tasks.is_empty(),
            res is Ok ==> exists|spawned: ReactorView<C>, rounds: nat|
                #![trigger spawned.runs_to(final(self)@, rounds)]
                old(self)@.spawned_to(computation, spawned) && spawned.runs_to(
                    final(self)@,
                    rounds,
                ),
            res matches Err(e) ==> exists|spawned: ReactorView<C>, rounds: nat|
                #![trigger spawned.run_fails(final(self)@, rounds, e.task_id)]
                old(self)@.spawned_to(computation, spawned) && spawned.run_fails(
                    final(self)@,
                    rounds,
                    e.task_id,
                ),
            res is Ok ==> forall|id: usize|
                0 < id < final(self)@.next_id && !final(self)@.running.contains(id) ==> final(self)@.finished.contains(id),
            res matches Err(e) ==> !final(self)@.tasks.contains_key(e.task_id),
    {
        self.do_spawn(computation);
        self.run_until_idle()
    }
}

/// Runs `computation` to quiescence on a reactor of its own, which starts at
/// clock reading 0: spawns it as task 1 and goes through the rounds of the
/// event loop until no task is suspended. On success every task that was
/// spawned has completed, each of them once. The run gives up at the first
/// stale wake.
pub fn run<C: Computation>(computation: C) -> (res: Result<RunReport, StaleWakeError>)
    ensures
        res matches Ok(report) ==> {
            &&& report.spawned >= 1
            &&& report.complete()
            &&& exists|spawned: ReactorView<C>, end: ReactorView<C>, rounds: nat|
                #![trigger spawned.runs_to(end, rounds)]
                ReactorView::<C>::fresh().spawned_to(computation, spawned) && spawned.runs_to(
                    end,
                    rounds,
                ) && report.tells(end)
        },
        res matches Err(e) ==> exists|spawned: ReactorView<C>, end: ReactorView<C>, rounds: nat|
            ReactorView::<C>::fresh().fails_to(computation, spawned, end, rounds, e.task_id),
{
    let mut reactor = Reactor::new();
    match reactor.run(computation) {
        Ok(()) => Ok(reactor.into_report()),
        Err(e) => {
            let res = Err(e);
            proof {
                let fresh = ReactorView::<C>::fresh();
                let end = reactor@;
                let (spawned, rounds) = choose|spawned: ReactorView<C>, rounds: nat|
                    #![trigger spawned.run_fails(end, rounds, e.task_id)]
                    fresh.spawned_to(computation, spawned) && spawned.run_fails(
                        end,
                        rounds,
                        e.task_id,
                    );
                assert(res->Err_0.task_id == e.task_id);
                assert(fresh.fails_to(computation, spawned, end, rounds, res->Err_0.task_id));
            }
            res
        },
    }
}

/// Spawns `computation` on `reactor` from inside a running computation, or
/// before the loop starts. Returns without blocking.
pub fn spawn<C: Computation>(reactor: &mut Reactor<C>, computation: C) -> (spawned: Option<usize>)
    requires
        old(reactor)@.wf(),
    ensures
        final(reactor)@.wf(),
        old(reactor)@.extends_to(final(reactor)@),
        spawned is None <==> old(reactor)@.next_id == usize::MAX,
        spawned is None ==> final(reactor)@ == old(reactor)@,
        spawned matches Some(id) ==> {
            &&& id == old(reactor)@.next_id
            &&& id < final(reactor)@.next_id
            &&& final(reactor)@.tasks.contains_key(id) || (final(reactor)@.finished.contains(id))
            &&& final(reactor)@.potential() < old(reactor)@.potential() + computation.weight()
        },
{
    reactor.do_spawn(computation)
}

} // verus!
