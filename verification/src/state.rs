use vstd::prelude::*;
use crate::computation::Computation;
use crate::computation::Measured;
use crate::computation::Task;
use crate::poll::Poll;
use crate::timer::ascending;
use crate::timer::due_count;
use crate::timer::lemma_due_count_sorted;
use crate::timer::Timer;
use crate::waker::NeedRun;
use crate::waker::Waker;

verus! {

/// The deadline of a timer registered at clock reading `now` for `duration`
/// units: their sum, held at the end of the time line where the sum would
/// pass it.
pub open spec fn deadline_after(now: u64, duration: u64) -> u64 {
    if now + duration <= u64::MAX {
        (now + duration) as u64
    } else {
        u64::MAX
    }
}

/// Some timer in `s` carries a waker for task `id`.
pub open spec fn names_timer(s: Seq<Timer>, id: usize) -> bool {
    exists|i: int| 0 <= i < s.len() && (#[trigger] s[i]).waker.task_id == id
}

/// Some wake signal in `s` is addressed to task `id`.
pub open spec fn names_signal(s: Seq<NeedRun>, id: usize) -> bool {
    exists|i: int| 0 <= i < s.len() && (#[trigger] s[i]).task_id == id
}

/// The wake signals that firing the timers of `s` posts, in the same order.
pub open spec fn signals_of(s: Seq<Timer>) -> Seq<NeedRun> {
    Seq::new(s.len(), |i: int| NeedRun { task_id: s[i].waker.task_id, waker: s[i].waker })
}

/// The summed weight of the tasks of `m` whose id is below `n`.
pub open spec fn weight_below<C: Measured>(m: Map<usize, Task<C>>, n: nat) -> nat
    decreases n,
{
    if n == 0 {
        0
    } else {
        let id = (n - 1) as usize;
        weight_below(m, (n - 1) as nat) + if m.contains_key(id) {
            m[id].task.weight()
        } else {
            0
        }
    }
}

/// The mathematical state of a reactor.
pub struct ReactorView<C> {
    /// The latest clock reading, in units since the reactor's start.
    pub clock: u64,
    /// The pending timers in firing order.
    pub timers: Seq<Timer>,
    /// The wake signals awaiting the next drain, oldest first.
    pub ready: Seq<NeedRun>,
    /// The suspended tasks by id.
    pub tasks: Map<usize, Task<C>>,
    /// The id that the next spawned task receives.
    pub next_id: usize,
    /// The ids of the tasks that ran to completion, in completion order.
    pub finished: Seq<usize>,
    /// The ids of the tasks that are being resumed right now: taken out of
    /// the table, not yet put back or completed.
    pub running: Set<usize>,
}

impl<C> ReactorView<C> {
    /// The state of a new reactor: clock reading 0, nothing pending, and 1
    /// the first id to hand out.
    pub open spec fn fresh() -> Self {
        ReactorView {
            clock: 0,
            timers: Seq::empty(),
            ready: Seq::empty(),
            tasks: Map::empty(),
            next_id: 1,
            finished: Seq::empty(),
            running: Set::empty(),
        }
    }

    /// Task `id` will be resumed without further help: a pending timer or a
    /// queued wake signal names it.
    pub open spec fn awaited(self, id: usize) -> bool {
        names_timer(self.timers, id) || names_signal(self.ready, id)
    }

    /// Task `id` has been spawned and has not completed.
    pub open spec fn alive(self, id: usize) -> bool {
        self.tasks.contains_key(id) || self.running.contains(id)
    }

    /// The timers are in firing order and every queued signal carries its
    /// task's waker.
    pub open spec fn queues_wf(self) -> bool {
        &&& ascending(self.timers)
        &&& forall|i: int| 0 <= i < self.ready.len() ==> (#[trigger] self.ready[i]).wf()
    }

    /// Every suspended task has an id that was handed out, is not being
    /// resumed at the same time, and is not stranded.
    pub open spec fn tasks_wf(self) -> bool {
        forall|id: usize| #[trigger]
            self.tasks.contains_key(id) ==> 0 < id < self.next_id && self.awaited(id)
                && !self.running.contains(id)
    }

    /// Every id handed out so far belongs to a task that is alive or to one
    /// that completed, never to both, and a task completes at most once.
    pub open spec fn ledger_wf(self) -> bool {
        &&& 0 < self.next_id
        &&& forall|id: usize| #[trigger] self.running.contains(id) ==> 0 < id < self.next_id
        &&& forall|i: int|
            0 <= i < self.finished.len() ==> 0 < (#[trigger] self.finished[i]) < self.next_id
                && !self.alive(self.finished[i])
        &&& forall|i: int, j: int|
            0 <= i < j < self.finished.len() ==> (#[trigger] self.finished[i]) != (
            #[trigger] self.finished[j])
        &&& forall|id: usize|
            0 < id < self.next_id ==> #[trigger] self.alive(id) || self.finished.contains(id)
    }

    /// The invariant of a reactor: its queues, its task table and its
    /// ledger of ids are all in order.
    pub open spec fn wf(self) -> bool {
        &&& self.queues_wf()
        &&& self.tasks_wf()
        &&& self.ledger_wf()
    }

    /// This state with suspended task `id` taken out of the task table to
    /// be resumed.
    pub open spec fn taken(self, id: usize) -> Self {
        ReactorView { tasks: self.tasks.remove(id), running: self.running.insert(id), ..self }
    }

    /// This state with task `id`, which was being resumed, suspended again
    /// as `task`.
    pub open spec fn suspended(self, id: usize, task: Task<C>) -> Self {
        ReactorView { tasks: self.tasks.insert(id, task), running: self.running.remove(id), ..self }
    }

    /// This state with task `id`, which was being resumed, completed.
    pub open spec fn completed(self, id: usize) -> Self {
        ReactorView {
            finished: self.finished.push(id),
            running: self.running.remove(id),
            ..self
        }
    }

    /// This state after the outcome `res` of resuming task `id` has been
    /// booked: suspended again as `task`, or completed.
    pub open spec fn booked(self, id: usize, task: Task<C>, res: Poll) -> Self {
        if res is Pending {
            self.suspended(id, task)
        } else {
            self.completed(id)
        }
    }

    /// This state after the next id has been handed out to a task that is
    /// about to be resumed for the first time.
    pub open spec fn numbered(self) -> Self {
        ReactorView {
            next_id: (self.next_id + 1) as usize,
            running: self.running.insert(self.next_id),
            ..self
        }
    }

    /// This state after a timer has been registered that wakes `waker` once
    /// `duration` units have passed since the latest clock reading.
    pub open spec fn timed(self, duration: u64, waker: Waker) -> Self {
        let deadline = deadline_after(self.clock, duration);
        ReactorView {
            timers: self.timers.insert(
                due_count(self.timers, deadline) as int,
                Timer { wakeup_duration: deadline, waker },
            ),
            ..self
        }
    }

    /// This state as it would be had task `id` never been suspended in it.
    pub open spec fn without(self, id: usize) -> Self {
        ReactorView { tasks: self.tasks.remove(id), ..self }
    }

    /// This state after `waker` has been invoked: a wake signal for its task
    /// has joined the run queue at the back.
    pub open spec fn woken(self, waker: Waker) -> Self {
        ReactorView {
            ready: self.ready.push(NeedRun { task_id: waker.task_id, waker }),
            ..self
        }
    }

    /// The oldest wake signal is stale: the task it names is not suspended.
    pub open spec fn front_is_stale(self) -> bool {
        self.ready.len() > 0 && !self.tasks.contains_key(self.ready[0].task_id)
    }

    /// `later` is a state reached from this one by delivering the oldest
    /// wake signal to its task, which reported `res`: the task is suspended
    /// in `later` exactly if it suspended again, its completion is the last
    /// one recorded if it completed, and apart from that task and the
    /// delivered signal `later` extends this state.
    pub open spec fn delivered_to(self, later: Self, res: Poll) -> bool {
        &&& self.ready.len() > 0
        &&& self.tasks.contains_key(self.ready[0].task_id)
        &&& self.dequeued().without(self.ready[0].task_id).extends_to(
            later.without(self.ready[0].task_id),
        )
        &&& res is Pending <==> later.tasks.contains_key(self.ready[0].task_id)
        &&& res is Ready ==> later.finished.len() > 0 && later.finished.last()
            == self.ready[0].task_id
    }

    /// This state with the oldest wake signal taken off the run queue.
    pub open spec fn dequeued(self) -> Self {
        ReactorView { ready: self.ready.drop_first(), ..self }
    }

    /// This state after the clock has been read as `reading`; it never runs
    /// backwards.
    pub open spec fn clocked(self, reading: u64) -> Self {
        ReactorView {
            clock: if reading > self.clock {
                reading
            } else {
                self.clock
            },
            ..self
        }
    }

    /// How long a driver that read the clock as `elapsed` has to wait before
    /// anything can happen: until the next timer is due, provided no wake
    /// signal is queued. `None` where a signal is queued, a timer is due
    /// already, or no timer is pending.
    pub open spec fn idle_time(self, elapsed: u64) -> Option<u64> {
        if self.ready.len() == 0 && self.timers.len() > 0 && self.timers[0].wakeup_duration
            > elapsed {
            Some((self.timers[0].wakeup_duration - elapsed) as u64)
        } else {
            None
        }
    }

    /// Whether the reactor has to wait before anything can happen: 1 if so,
    /// 0 if not.
    pub open spec fn stalled(self) -> nat {
        if self.idle_time(self.clock) is Some {
            1
        } else {
            0
        }
    }

    /// What every step of a reactor respects: the clock does not run
    /// backwards, ids are only handed out, completions are only recorded,
    /// and the tasks being resumed are the same before and after.
    pub open spec fn leads_to(self, later: Self) -> bool {
        &&& self.clock <= later.clock
        &&& self.next_id <= later.next_id
        &&& self.finished.is_prefix_of(later.finished)
        &&& later.running == self.running
    }

    /// Every queued wake signal can be delivered: each names a suspended
    /// task, and no two name the same one.
    pub open spec fn deliverable(self) -> bool {
        &&& forall|i: int|
            0 <= i < self.ready.len() ==> self.tasks.contains_key((#[trigger] self.ready[i]).task_id)
        &&& forall|i: int, j: int|
            0 <= i < j < self.ready.len() ==> (#[trigger] self.ready[i]).task_id != (
            #[trigger] self.ready[j]).task_id
    }

    /// This state after every timer due by `elapsed` has fired.
    pub open spec fn fired(self, elapsed: u64) -> Self {
        let due = due_count(self.timers, elapsed) as int;
        ReactorView {
            timers: self.timers.skip(due),
            ready: self.ready + signals_of(self.timers.take(due)),
            ..self
        }
    }

    /// `later` can be reached from this state by delivering its `n` oldest
    /// wake signals: the clock has not moved, the signals behind those `n`
    /// still lead the run queue, no timer was dropped, and every task that
    /// none of the delivered signals names is suspended as before.
    pub open spec fn drained_to(self, later: Self, n: nat) -> bool {
        &&& n <= self.ready.len()
        &&& later.clock == self.clock
        &&& self.ready.skip(n as int).is_prefix_of(later.ready)
        &&& self.timers.len() <= later.timers.len()
        &&& forall|t: Timer| #[trigger] self.timers.contains(t) ==> later.timers.contains(t)
        &&& forall|id: usize| #[trigger]
            self.tasks.contains_key(id) && !names_signal(self.ready.take(n as int), id)
                ==> later.tasks.contains_key(id) && later.tasks[id] == self.tasks[id]
        &&& forall|id: usize| #[trigger]
            later.tasks.contains_key(id) && !self.tasks.contains_key(id) ==> self.next_id <= id
        &&& self.next_id <= later.next_id
        &&& self.finished.is_prefix_of(later.finished)
        &&& later.running == self.running
    }

    /// `later` can be reached from this state by registering timers, posting
    /// wake signals, spawning tasks and letting spawned tasks complete:
    /// nothing that was pending here has been dropped, reordered or resumed,
    /// and the clock has not moved.
    pub open spec fn extends_to(self, later: Self) -> bool {
        &&& later.clock == self.clock
        &&& self.ready.is_prefix_of(later.ready)
        &&& self.timers.len() <= later.timers.len()
        &&& forall|t: Timer| #[trigger] self.timers.contains(t) ==> later.timers.contains(t)
        &&& self.tasks.submap_of(later.tasks)
        &&& forall|id: usize| #[trigger]
            later.tasks.contains_key(id) && !self.tasks.contains_key(id) ==> self.next_id <= id
        &&& self.next_id <= later.next_id
        &&& self.finished.is_prefix_of(later.finished)
        &&& later.running == self.running
    }
}

impl<C: Computation> ReactorView<C> {
    /// `later` is a state that spawning `computation` in this state can
    /// lead to: the next id is handed out, the computation is resumed under
    /// it for the first time, and the outcome is booked.
    pub open spec fn spawned_to(self, computation: C, later: Self) -> bool {
        exists|task: C, polled: Self, res: Poll| #[trigger]
            computation.resumes_to(
                self.numbered(),
                Waker { task_id: self.next_id },
                task,
                polled,
                res,
            ) && later == polled.booked(self.next_id, Task { task }, res)
    }

    /// Running `computation` from this state can fail in state `end` on a
    /// stale wake signal for task `id`: it is spawned, which leads to
    /// `spawned`, and the event loop gives up in round number `rounds`.
    pub open spec fn fails_to(
        self,
        computation: C,
        spawned: Self,
        end: Self,
        rounds: nat,
        id: usize,
    ) -> bool {
        self.spawned_to(computation, spawned) && spawned.run_fails(end, rounds, id)
    }

    /// `later` is a state that delivering the oldest wake signal of this
    /// state can lead to, with its task reporting `res`: the signal leaves
    /// the queue, the task is taken out of the table and resumed with the
    /// signal's waker, and the outcome is booked.
    pub open spec fn resumed_to(self, later: Self, res: Poll) -> bool {
        &&& self.ready.len() > 0
        &&& self.tasks.contains_key(self.ready[0].task_id)
        &&& exists|task: C, polled: Self| #[trigger]
            self.tasks[self.ready[0].task_id].task.resumes_to(
                self.dequeued().taken(self.ready[0].task_id),
                self.ready[0].waker,
                task,
                polled,
                res,
            ) && later == polled.booked(self.ready[0].task_id, Task { task }, res)
    }

    /// `later` is a state that delivering the `n` oldest wake signals of
    /// this state, one after the other, can lead to.
    pub open spec fn drains_to(self, later: Self, n: nat) -> bool
        decreases n,
    {
        if n == 0 {
            later == self
        } else {
            exists|mid: Self, res: Poll| #[trigger]
                self.resumed_to(mid, res) && mid.drains_to(later, (n - 1) as nat)
        }
    }

    /// `later` is a state in which delivering up to `n` of the oldest wake
    /// signals of this state can end when it comes upon a stale one, for
    /// task `id`: the signals before it were delivered, and the stale one
    /// was taken off the queue.
    pub open spec fn drain_fails(self, later: Self, n: nat, id: usize) -> bool
        decreases n,
    {
        if n == 0 {
            false
        } else if self.front_is_stale() {
            later == self.dequeued() && id == self.ready[0].task_id
        } else {
            exists|mid: Self, res: Poll| #[trigger]
                self.resumed_to(mid, res) && mid.drain_fails(later, (n - 1) as nat, id)
        }
    }
}

impl<C: Computation> ReactorView<C> {
    /// This state after the wait that opens a round of the event loop: the
    /// clock has moved to the next deadline where there was something to
    /// wait for.
    pub open spec fn slept(self) -> Self {
        match self.idle_time(self.clock) {
            Some(wait) => ReactorView { clock: (self.clock + wait) as u64, ..self },
            None => self,
        }
    }

    /// `later` is a state that one tick on the clock reading `elapsed` can
    /// lead to: the timers due by then fire and exactly the signals that are
    /// queued after that are delivered.
    pub open spec fn ticks_to(self, elapsed: u64, later: Self) -> bool {
        self.clocked(elapsed).fired(elapsed).drains_to(
            later,
            self.clocked(elapsed).fired(elapsed).ready.len(),
        )
    }

    /// `later` is a state in which one tick on the clock reading `elapsed`
    /// can end when it comes upon a stale wake signal, for task `id`.
    pub open spec fn tick_fails(self, elapsed: u64, later: Self, id: usize) -> bool {
        self.clocked(elapsed).fired(elapsed).drain_fails(
            later,
            self.clocked(elapsed).fired(elapsed).ready.len(),
            id,
        )
    }

    /// `later` is a state that `rounds` rounds of the event loop on the
    /// reactor's own clock can lead to, the last of them being the first
    /// that ends with no task suspended. A round reads the clock, waits
    /// until the next timer is due where there is something to wait for, and
    /// ticks on the reading taken before the wait.
    pub open spec fn runs_to(self, later: Self, rounds: nat) -> bool
        decreases rounds,
    {
        if rounds == 0 {
            false
        } else {
            exists|mid: Self| #[trigger]
                self.slept().ticks_to(self.clock, mid) && if mid.tasks.is_empty() {
                    rounds == 1 && later == mid
                } else {
                    mid.runs_to(later, (rounds - 1) as nat)
                }
        }
    }

    /// `later` is a state in which the event loop on the reactor's own
    /// clock can end in its round number `rounds` when it comes upon a stale
    /// wake signal, for task `id`.
    pub open spec fn run_fails(self, later: Self, rounds: nat, id: usize) -> bool
        decreases rounds,
    {
        if rounds == 0 {
            false
        } else if rounds == 1 {
            self.slept().tick_fails(self.clock, later, id)
        } else {
            exists|mid: Self| #[trigger]
                self.slept().ticks_to(self.clock, mid) && !mid.tasks.is_empty() && mid.run_fails(
                    later,
                    (rounds - 1) as nat,
                    id,
                )
        }
    }
}

impl<C: Measured> ReactorView<C> {
    /// An upper bound on the resumptions that the suspended tasks, and the
    /// tasks they go on to spawn, still need.
    pub open spec fn potential(self) -> nat {
        weight_below(self.tasks, self.next_id as nat)
    }
}

/// Every state extends to itself.
pub proof fn lemma_extends_refl<C>(a: ReactorView<C>)
    ensures
        a.extends_to(a),
{
}

/// Extension composes.
pub proof fn lemma_extends_trans<C>(a: ReactorView<C>, b: ReactorView<C>, c: ReactorView<C>)
    requires
        a.extends_to(b),
        b.extends_to(c),
    ensures
        a.extends_to(c),
{
    assert forall|t: Timer| #[trigger] a.timers.contains(t) implies c.timers.contains(t) by {
        assert(b.timers.contains(t));
    }
    assert forall|id: usize| #[trigger]
        c.tasks.contains_key(id) && !a.tasks.contains_key(id) implies a.next_id <= id by {
        if b.tasks.contains_key(id) {
        }
    }
    assert(a.tasks.submap_of(c.tasks)) by {
        assert forall|id: usize| #[trigger] a.tasks.dom().contains(id) implies c.tasks.dom().contains(id)
            && a.tasks[id] == c.tasks[id] by {
            assert(b.tasks.dom().contains(id));
        }
    }
}

/// Whoever was awaited stays awaited in every extension.
pub proof fn lemma_extends_awaited<C>(a: ReactorView<C>, b: ReactorView<C>, id: usize)
    requires
        a.extends_to(b),
        a.awaited(id),
    ensures
        b.awaited(id),
{
    if names_timer(a.timers, id) {
        let i = choose|i: int| 0 <= i < a.timers.len() && (#[trigger] a.timers[i]).waker.task_id == id;
        assert(a.timers.contains(a.timers[i]));
        assert(b.timers.contains(a.timers[i]));
        let j = choose|j: int| 0 <= j < b.timers.len() && b.timers[j] == a.timers[i];
        assert(b.timers[j].waker.task_id == id);
    } else {
        let i = choose|i: int| 0 <= i < a.ready.len() && (#[trigger] a.ready[i]).task_id == id;
        assert(b.ready[i] == a.ready[i]);
    }
}

/// The tasks at or above `n` do not count towards `weight_below(_, n)`.
pub proof fn lemma_weight_agree<C: Measured>(
    a: Map<usize, Task<C>>,
    b: Map<usize, Task<C>>,
    n: nat,
)
    requires
        forall|id: usize|
            id < n ==> (#[trigger] a.contains_key(id) <==> b.contains_key(id)) && (a.contains_key(
                id,
            ) ==> a[id] == b[id]),
    ensures
        weight_below(a, n) == weight_below(b, n),
    decreases n,
{
    if n > 0 {
        let id = (n - 1) as usize;
        assert(a.contains_key(id) <==> b.contains_key(id));
        lemma_weight_agree(a, b, (n - 1) as nat);
    }
}

/// Raising the bound past every id in use adds nothing.
pub proof fn lemma_weight_raise<C: Measured>(m: Map<usize, Task<C>>, n: nat, k: nat)
    requires
        n <= k <= usize::MAX + 1,
        forall|id: usize| #[trigger] m.contains_key(id) ==> id < n,
    ensures
        weight_below(m, k) == weight_below(m, n),
    decreases k - n,
{
    if n < k {
        lemma_weight_raise(m, n, (k - 1) as nat);
        assert(!m.contains_key((k - 1) as usize));
    }
}

/// Inserting a task under a fresh id below the bound adds its weight.
pub proof fn lemma_weight_insert<C: Measured>(
    m: Map<usize, Task<C>>,
    n: nat,
    id: usize,
    task: Task<C>,
)
    requires
        id < n <= usize::MAX + 1,
        !m.contains_key(id),
    ensures
        weight_below(m.insert(id, task), n) == weight_below(m, n) + task.task.weight(),
    decreases n,
{
    let last = (n - 1) as usize;
    if last == id {
        lemma_weight_agree(m, m.insert(id, task), (n - 1) as nat);
    } else {
        lemma_weight_insert(m, (n - 1) as nat, id, task);
        assert(m.insert(id, task).contains_key(last) <==> m.contains_key(last));
    }
}

/// Removing a task whose id is below the bound takes its weight away.
pub proof fn lemma_weight_remove<C: Measured>(m: Map<usize, Task<C>>, n: nat, id: usize)
    requires
        id < n <= usize::MAX + 1,
        m.contains_key(id),
    ensures
        weight_below(m.remove(id), n) + m[id].task.weight() == weight_below(m, n),
    decreases n,
{
    let last = (n - 1) as usize;
    if last == id {
        lemma_weight_agree(m, m.remove(id), (n - 1) as nat);
    } else {
        lemma_weight_remove(m, (n - 1) as nat, id);
        assert(m.remove(id).contains_key(last) <==> m.contains_key(last));
    }
}

/// Changes to the clock, the timers and the run queue leave the ledger of
/// ids in order.
pub proof fn lemma_ledger_frame<C>(a: ReactorView<C>, b: ReactorView<C>)
    requires
        a.ledger_wf(),
        b.tasks == a.tasks,
        b.running == a.running,
        b.finished == a.finished,
        b.next_id == a.next_id,
    ensures
        b.ledger_wf(),
{
    assert forall|i: int| 0 <= i < b.finished.len() implies 0 < (#[trigger] b.finished[i])
        < b.next_id && !b.alive(b.finished[i]) by {
        assert(!a.alive(a.finished[i]));
    }
    assert forall|id: usize| 0 < id < b.next_id implies #[trigger] b.alive(id)
        || b.finished.contains(id) by {
        assert(a.alive(id) || a.finished.contains(id));
    }
}

/// The task table stays in order as long as the same tasks are suspended
/// and whoever was awaited still is.
pub proof fn lemma_tasks_frame<C>(a: ReactorView<C>, b: ReactorView<C>)
    requires
        a.tasks_wf(),
        b.tasks == a.tasks,
        b.running == a.running,
        b.next_id == a.next_id,
        forall|id: usize| a.tasks.contains_key(id) && a.awaited(id) ==> b.awaited(id),
    ensures
        b.tasks_wf(),
{
    assert forall|id: usize| #[trigger] b.tasks.contains_key(id) implies 0 < id < b.next_id
        && b.awaited(id) && !b.running.contains(id) by {
        assert(a.tasks.contains_key(id));
    }
}

/// Handing out the next id to a task that is about to run keeps the ledger
/// and the task table in order.
pub proof fn lemma_wf_numbered<C>(a: ReactorView<C>)
    requires
        a.wf(),
        a.next_id < usize::MAX,
    ensures
        (ReactorView {
            next_id: (a.next_id + 1) as usize,
            running: a.running.insert(a.next_id),
            ..a
        }).wf(),
{
    let b = ReactorView {
        next_id: (a.next_id + 1) as usize,
        running: a.running.insert(a.next_id),
        ..a
    };
    assert forall|id: usize| #[trigger] b.tasks.contains_key(id) implies 0 < id < b.next_id
        && b.awaited(id) && !b.running.contains(id) by {
        assert(a.tasks.contains_key(id));
    }
    assert forall|id: usize| #[trigger] b.running.contains(id) implies 0 < id < b.next_id by {
        if id != a.next_id {
            assert(a.running.contains(id));
        }
    }
    assert forall|i: int| 0 <= i < b.finished.len() implies 0 < (#[trigger] b.finished[i])
        < b.next_id && !b.alive(b.finished[i]) by {
        assert(0 < a.finished[i] < a.next_id);
        assert(!a.alive(a.finished[i]));
    }
    assert forall|id: usize| 0 < id < b.next_id implies #[trigger] b.alive(id)
        || b.finished.contains(id) by {
        if id < a.next_id {
            assert(a.alive(id) || a.finished.contains(id));
        }
    }
}

/// Taking a suspended task out to resume it keeps the ledger in order, and
/// the task table too as far as the other tasks are still awaited.
pub proof fn lemma_wf_taken<C>(a: ReactorView<C>, id: usize)
    requires
        a.queues_wf(),
        a.ledger_wf(),
        a.tasks.contains_key(id),
        0 < id < a.next_id,
        !a.running.contains(id),
        forall|other: usize| #[trigger]
            a.tasks.contains_key(other) && other != id ==> 0 < other < a.next_id && a.awaited(other)
                && !a.running.contains(other),
    ensures
        a.taken(id).wf(),
{
    let b = a.taken(id);
    assert forall|other: usize| #[trigger] b.tasks.contains_key(other) implies 0 < other
        < b.next_id && b.awaited(other) && !b.running.contains(other) by {
        assert(a.tasks.contains_key(other) && other != id);
    }
    assert forall|r: usize| #[trigger] b.running.contains(r) implies 0 < r < b.next_id by {
        if r != id {
            assert(a.running.contains(r));
        }
    }
    assert forall|i: int| 0 <= i < b.finished.len() implies 0 < (#[trigger] b.finished[i])
        < b.next_id && !b.alive(b.finished[i]) by {
        assert(!a.alive(a.finished[i]));
    }
    assert forall|k: usize| 0 < k < b.next_id implies #[trigger] b.alive(k) || b.finished.contains(
        k,
    ) by {
        assert(a.alive(k) || a.finished.contains(k));
    }
}

/// Putting a resumed task back under its id keeps the reactor in order,
/// provided something pending names it.
pub proof fn lemma_wf_suspended<C>(a: ReactorView<C>, id: usize, task: Task<C>)
    requires
        a.wf(),
        a.running.contains(id),
        a.awaited(id),
    ensures
        a.suspended(id, task).wf(),
{
    let b = a.suspended(id, task);
    assert(!a.tasks.contains_key(id));
    assert forall|other: usize| #[trigger] b.tasks.contains_key(other) implies 0 < other
        < b.next_id && b.awaited(other) && !b.running.contains(other) by {
        if other != id {
            assert(a.tasks.contains_key(other));
        }
    }
    assert forall|r: usize| #[trigger] b.running.contains(r) implies 0 < r < b.next_id by {
        assert(a.running.contains(r));
    }
    assert forall|i: int| 0 <= i < b.finished.len() implies 0 < (#[trigger] b.finished[i])
        < b.next_id && !b.alive(b.finished[i]) by {
        assert(!a.alive(a.finished[i]));
        assert(a.alive(id));
    }
    assert forall|k: usize| 0 < k < b.next_id implies #[trigger] b.alive(k) || b.finished.contains(
        k,
    ) by {
        assert(a.alive(k) || a.finished.contains(k));
    }
}

/// Recording the completion of a resumed task keeps the reactor in order.
pub proof fn lemma_wf_completed<C>(a: ReactorView<C>, id: usize)
    requires
        a.wf(),
        a.running.contains(id),
    ensures
        a.completed(id).wf(),
{
    let b = a.completed(id);
    let n = a.finished.len() as int;
    assert(!a.tasks.contains_key(id));
    assert(a.alive(id));
    assert forall|other: usize| #[trigger] b.tasks.contains_key(other) implies 0 < other
        < b.next_id && b.awaited(other) && !b.running.contains(other) by {
        assert(a.tasks.contains_key(other));
    }
    assert forall|r: usize| #[trigger] b.running.contains(r) implies 0 < r < b.next_id by {
        assert(a.running.contains(r));
    }
    assert forall|i: int| 0 <= i < b.finished.len() implies 0 < (#[trigger] b.finished[i])
        < b.next_id && !b.alive(b.finished[i]) by {
        if i < n {
            assert(b.finished[i] == a.finished[i]);
            assert(!a.alive(a.finished[i]));
        }
    }
    assert forall|i: int, j: int| 0 <= i < j < b.finished.len() implies (#[trigger] b.finished[i])
        != (#[trigger] b.finished[j]) by {
        assert(b.finished[i] == a.finished[i]);
        assert(!a.alive(a.finished[i]));
        if j < n {
            assert(b.finished[j] == a.finished[j]);
        }
    }
    assert forall|k: usize| 0 < k < b.next_id implies #[trigger] b.alive(k) || b.finished.contains(
        k,
    ) by {
        if k == id {
            assert(b.finished[n] == id);
        } else {
            assert(a.alive(k) || a.finished.contains(k));
            if a.finished.contains(k) {
                let i = choose|i: int| 0 <= i < a.finished.len() && a.finished[i] == k;
                assert(b.finished[i] == k);
            }
        }
    }
}

/// Spawning in three steps — hand out the next id, resume the new task for
/// the first time, book the outcome — extends the state it started from, and
/// costs less than the new task's weight.
///
/// `polled` is the state after the first resumption, `task` what the new
/// task has become and `res` what it reported; `weight` is what it weighed
/// before.
pub proof fn lemma_spawn_steps<C: Measured>(
    before: ReactorView<C>,
    polled: ReactorView<C>,
    task: Task<C>,
    res: Poll,
    weight: nat,
)
    requires
        before.wf(),
        before.next_id < usize::MAX,
        polled.wf(),
        (ReactorView {
            next_id: (before.next_id + 1) as usize,
            running: before.running.insert(before.next_id),
            ..before
        }).extends_to(polled),
        res is Pending ==> polled.awaited(before.next_id),
        polled.potential() + (if res is Pending {
            task.task.weight()
        } else {
            0
        }) < weight_below(before.tasks, (before.next_id + 1) as nat) + weight,
    ensures
        before.extends_to(
            if res is Pending {
                polled.suspended(before.next_id, task)
            } else {
                polled.completed(before.next_id)
            },
        ),
        (if res is Pending {
            polled.suspended(before.next_id, task)
        } else {
            polled.completed(before.next_id)
        }).potential() < before.potential() + weight,
        res is Pending ==> polled.suspended(before.next_id, task).wf(),
        res is Ready ==> polled.completed(before.next_id).wf(),
{
    let id = before.next_id;
    let numbered = ReactorView {
        next_id: (before.next_id + 1) as usize,
        running: before.running.insert(before.next_id),
        ..before
    };
    let after = if res is Pending {
        polled.suspended(id, task)
    } else {
        polled.completed(id)
    };
    lemma_weight_raise(before.tasks, before.next_id as nat, numbered.next_id as nat);
    assert(polled.running.contains(id));
    assert(!polled.tasks.contains_key(id));
    assert(after.running =~= before.running);
    if res is Pending {
        lemma_weight_insert(polled.tasks, polled.next_id as nat, id, task);
        lemma_wf_suspended(polled, id, task);
    } else {
        lemma_wf_completed(polled, id);
    }
    assert forall|t: Timer| #[trigger] before.timers.contains(t) implies after.timers.contains(
        t,
    ) by {
        assert(numbered.timers.contains(t));
    }
    assert forall|k: usize| #[trigger]
        after.tasks.contains_key(k) && !before.tasks.contains_key(k) implies before.next_id
        <= k by {
        if k != id {
            assert(polled.tasks.contains_key(k));
        }
    }
    assert(before.tasks.submap_of(after.tasks)) by {
        assert forall|k: usize| #[trigger] before.tasks.dom().contains(k) implies after.tasks.dom().contains(
            k,
        ) && before.tasks[k] == after.tasks[k] by {
            assert(numbered.tasks.dom().contains(k));
            assert(polled.tasks.dom().contains(k));
        }
    }
}

/// Registering a timer keeps the reactor in order and extends its state;
/// the task the timer is for is awaited from then on.
pub proof fn lemma_wf_timed<C>(s: ReactorView<C>, duration: u64, waker: Waker)
    requires
        s.wf(),
    ensures
        due_count(s.timers, deadline_after(s.clock, duration)) <= s.timers.len(),
        s.timed(duration, waker).wf(),
        s.extends_to(s.timed(duration, waker)),
        s.timed(duration, waker).awaited(waker.task_id),
{
    let deadline = deadline_after(s.clock, duration);
    let timer = Timer { wakeup_duration: deadline, waker };
    lemma_due_count_sorted(s.timers, deadline);
    let at = due_count(s.timers, deadline) as int;
    let after = s.timed(duration, waker);
    assert(after.timers[at] == timer);
    assert forall|i: int, j: int| 0 <= i <= j < after.timers.len() implies (
    #[trigger] after.timers[i]).wakeup_duration <= (#[trigger] after.timers[j]).wakeup_duration by {
        if i < at && j > at {
            assert(after.timers[i] == s.timers[i] && after.timers[j] == s.timers[j - 1]);
        } else if i < at && j < at {
            assert(after.timers[i] == s.timers[i] && after.timers[j] == s.timers[j]);
        } else if i > at {
            assert(after.timers[i] == s.timers[i - 1] && after.timers[j] == s.timers[j - 1]);
        } else if i == at && j > at {
            assert(after.timers[j] == s.timers[j - 1]);
        } else if j == at && i < at {
            assert(after.timers[i] == s.timers[i]);
        }
    }
    assert forall|t: Timer| #[trigger] s.timers.contains(t) implies after.timers.contains(t) by {
        let i = choose|i: int| 0 <= i < s.timers.len() && s.timers[i] == t;
        if i < at {
            assert(after.timers[i] == t);
        } else {
            assert(after.timers[i + 1] == t);
        }
    }
    assert(s.extends_to(after));
    assert forall|id: usize| s.tasks.contains_key(id) && s.awaited(id) implies after.awaited(
        id,
    ) by {
        lemma_extends_awaited(s, after, id);
    }
    lemma_ledger_frame(s, after);
    lemma_tasks_frame(s, after);
}

/// Firing the timers that are due keeps the reactor in order.
pub proof fn lemma_wf_fired<C>(s: ReactorView<C>, elapsed: u64)
    requires
        s.wf(),
    ensures
        due_count(s.timers, elapsed) <= s.timers.len(),
        s.fired(elapsed).wf(),
{
    lemma_due_count_sorted(s.timers, elapsed);
    let k = due_count(s.timers, elapsed) as int;
    let after = s.fired(elapsed);
    assert forall|id: usize| s.tasks.contains_key(id) && s.awaited(id) implies after.awaited(
        id,
    ) by {
        if names_timer(s.timers, id) {
            let i = choose|i: int|
                0 <= i < s.timers.len() && (#[trigger] s.timers[i]).waker.task_id == id;
            if i < k {
                assert(after.ready[s.ready.len() + i].task_id == id);
            } else {
                assert(after.timers[i - k] == s.timers[i]);
            }
        } else {
            let i = choose|i: int| 0 <= i < s.ready.len() && (#[trigger] s.ready[i]).task_id == id;
            assert(after.ready[i] == s.ready[i]);
        }
    }
    assert(ascending(after.timers)) by {
        assert forall|i: int, j: int| 0 <= i <= j < after.timers.len() implies (
        #[trigger] after.timers[i]).wakeup_duration <= (
        #[trigger] after.timers[j]).wakeup_duration by {
            assert(after.timers[i] == s.timers[i + k]);
            assert(after.timers[j] == s.timers[j + k]);
        }
    }
    assert forall|i: int| 0 <= i < after.ready.len() implies (#[trigger] after.ready[i]).wf() by {
        if i < s.ready.len() {
            assert(after.ready[i] == s.ready[i]);
        }
    }
    lemma_ledger_frame(s, after);
    lemma_tasks_frame(s, after);
}

/// Taking the oldest wake signal off the queue leaves every task but the
/// one it names awaited as before, and the queues and the ledger in order.
pub proof fn lemma_dequeued<C>(s: ReactorView<C>)
    requires
        s.wf(),
        s.ready.len() > 0,
    ensures
        s.dequeued().queues_wf(),
        s.dequeued().ledger_wf(),
        forall|id: usize| #[trigger]
            s.tasks.contains_key(id) && id != s.ready[0].task_id ==> 0 < id < s.next_id
                && s.dequeued().awaited(id) && !s.running.contains(id),
        s.front_is_stale() ==> s.dequeued().wf(),
{
    let popped = s.dequeued();
    assert forall|i: int| 0 <= i < popped.ready.len() implies (#[trigger] popped.ready[i]).wf() by {
        assert(popped.ready[i] == s.ready[i + 1]);
    }
    assert forall|id: usize| #[trigger]
        s.tasks.contains_key(id) && id != s.ready[0].task_id implies 0 < id < s.next_id
        && popped.awaited(id) && !s.running.contains(id) by {
        assert(s.awaited(id));
        if !names_timer(s.timers, id) {
            let i = choose|i: int| 0 <= i < s.ready.len() && (#[trigger] s.ready[i]).task_id == id;
            assert(popped.ready[i - 1] == s.ready[i]);
        }
    }
    lemma_ledger_frame(s, popped);
    if s.front_is_stale() {
        assert forall|id: usize| #[trigger] popped.tasks.contains_key(id) implies 0 < id
            < popped.next_id && popped.awaited(id) && !popped.running.contains(id) by {
            assert(s.tasks.contains_key(id) && id != s.ready[0].task_id);
        }
    }
}

} // verus!
