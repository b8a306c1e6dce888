use vstd::prelude::*;
use crate::computation::Task;
use crate::poll::Poll;
use crate::sleep_task::main_task;
use crate::sleep_task::resumed;
use crate::sleep_task::sub_spawned;
use crate::sleep_task::sub_task_of;
use crate::sleep_task::SleepTask;
use crate::state::lemma_dequeued;
use crate::state::lemma_ledger_frame;
use crate::state::lemma_tasks_frame;
use crate::state::lemma_wf_completed;
use crate::state::lemma_wf_fired;
use crate::state::lemma_wf_numbered;
use crate::state::lemma_wf_suspended;
use crate::state::lemma_wf_taken;
use crate::state::lemma_wf_timed;
use crate::state::ReactorView;
use crate::timeout::Timeout;
use crate::undisturbed::lemma_arming_undisturbed;
use crate::undisturbed::lemma_completing_undisturbed;
use crate::undisturbed::lemma_firing_undisturbed;
use crate::undisturbed::lemma_numbering_undisturbed;
use crate::undisturbed::lemma_taking_undisturbed;
use crate::undisturbed::undisturbed;
use crate::waker::Waker;

verus! {

/// The rounds that the suspended tasks of `m` with an id below `n` have
/// left, and the number of those tasks.
pub open spec fn rounds_below(m: Map<usize, Task<SleepTask>>, n: nat) -> (nat, nat)
    decreases n,
{
    if n == 0 {
        (0, 0)
    } else {
        let id = (n - 1) as usize;
        let (rounds, tasks) = rounds_below(m, (n - 1) as nat);
        if m.contains_key(id) {
            ((rounds + m[id].task.rounds) as nat, (tasks + 1) as nat)
        } else {
            (rounds, tasks)
        }
    }
}

/// The tasks at or above `n` do not count towards `rounds_below(_, n)`.
proof fn lemma_rounds_agree(a: Map<usize, Task<SleepTask>>, b: Map<usize, Task<SleepTask>>, n: nat)
    requires
        forall|id: usize|
            id < n ==> (#[trigger] a.contains_key(id) <==> b.contains_key(id)) && (a.contains_key(
                id,
            ) ==> a[id] == b[id]),
    ensures
        rounds_below(a, n) == rounds_below(b, n),
    decreases n,
{
    if n > 0 {
        let id = (n - 1) as usize;
        assert(a.contains_key(id) <==> b.contains_key(id));
        lemma_rounds_agree(a, b, (n - 1) as nat);
    }
}

/// Raising the bound past every id in use adds nothing.
proof fn lemma_rounds_raise(m: Map<usize, Task<SleepTask>>, n: nat, k: nat)
    requires
        n <= k <= usize::MAX + 1,
        forall|id: usize| #[trigger] m.contains_key(id) ==> id < n,
    ensures
        rounds_below(m, k) == rounds_below(m, n),
    decreases k - n,
{
    if n < k {
        lemma_rounds_raise(m, n, (k - 1) as nat);
        assert(!m.contains_key((k - 1) as usize));
    }
}

/// Inserting a task under a fresh id below the bound adds its rounds and
/// counts it.
proof fn lemma_rounds_insert(
    m: Map<usize, Task<SleepTask>>,
    n: nat,
    id: usize,
    task: Task<SleepTask>,
)
    requires
        id < n <= usize::MAX + 1,
        !m.contains_key(id),
    ensures
        rounds_below(m.insert(id, task), n) == (
            (rounds_below(m, n).0 + task.task.rounds) as nat,
            (rounds_below(m, n).1 + 1) as nat,
        ),
    decreases n,
{
    let last = (n - 1) as usize;
    if last == id {
        lemma_rounds_agree(m, m.insert(id, task), (n - 1) as nat);
    } else {
        lemma_rounds_insert(m, (n - 1) as nat, id, task);
        assert(m.insert(id, task).contains_key(last) <==> m.contains_key(last));
    }
}

/// Removing a task whose id is below the bound takes its rounds away and
/// counts it no longer.
proof fn lemma_rounds_remove(m: Map<usize, Task<SleepTask>>, n: nat, id: usize)
    requires
        id < n <= usize::MAX + 1,
        m.contains_key(id),
    ensures
        rounds_below(m, n) == (
            (rounds_below(m.remove(id), n).0 + m[id].task.rounds) as nat,
            (rounds_below(m.remove(id), n).1 + 1) as nat,
        ),
    decreases n,
{
    let last = (n - 1) as usize;
    if last == id {
        lemma_rounds_agree(m, m.remove(id), (n - 1) as nat);
    } else {
        lemma_rounds_remove(m, (n - 1) as nat, id);
        assert(m.remove(id).contains_key(last) <==> m.contains_key(last));
    }
}

/// Without suspended tasks no rounds are left.
proof fn lemma_rounds_of_none(m: Map<usize, Task<SleepTask>>, n: nat)
    requires
        m.is_empty(),
    ensures
        rounds_below(m, n) == (0nat, 0nat),
    decreases n,
{
    if n > 0 {
        assert(m.dom() =~= Set::<usize>::empty());
        assert(!m.contains_key((n - 1) as usize));
        lemma_rounds_of_none(m, (n - 1) as nat);
    }
}

/// The tasks being resumed, the rounds and the bookkeeping of a reactor of
/// sleep tasks that spawns `budget - 1` tasks in all: it is in order and
/// undisturbed, every suspended task has its timer registered and a pause
/// to sleep before each sub-task, the tasks spawned so far and the rounds
/// left add up to the budget, and every task spawned so far is suspended,
/// being resumed or on record as completed.
pub open spec fn sleepers(s: ReactorView<SleepTask>, active: Set<usize>, budget: nat) -> bool {
    &&& s.wf()
    &&& undisturbed(s, active)
    &&& forall|id: usize| #[trigger]
        s.tasks.contains_key(id) ==> s.tasks[id].task.timeout == Timeout::Armed && (
        s.tasks[id].task.rounds > 0 ==> s.tasks[id].task.pause > 0)
    &&& budget <= usize::MAX
}

/// A reactor of sleep tasks between two deliveries: no task is being
/// resumed, and the tasks spawned so far and the rounds left add up to the
/// budget.
pub open spec fn sleepers_only(s: ReactorView<SleepTask>, budget: nat) -> bool {
    &&& sleepers(s, Set::<usize>::empty(), budget)
    &&& s.next_id + rounds_below(s.tasks, s.next_id as nat).0 == budget
    &&& s.finished.len() + rounds_below(s.tasks, s.next_id as nat).1 + 1 == s.next_id
}

/// Spawning a sub-task while task `id` is being resumed keeps the reactor
/// in order and undisturbed, hands out one id, and suspends one task more
/// or puts one completion more on record.
proof fn lemma_sub_spawned(s: ReactorView<SleepTask>, id: usize, pause: u64, budget: nat)
    requires
        sleepers(s, set![id], budget),
        s.next_id < usize::MAX,
    ensures
        sleepers(sub_spawned(s, pause), set![id], budget),
        sub_spawned(s, pause).next_id == s.next_id + 1,
        sub_spawned(s, pause).ready == s.ready,
        rounds_below(sub_spawned(s, pause).tasks, sub_spawned(s, pause).next_id as nat).0
            == rounds_below(s.tasks, s.next_id as nat).0,
        sub_spawned(s, pause).finished.len() + rounds_below(
            sub_spawned(s, pause).tasks,
            sub_spawned(s, pause).next_id as nat,
        ).1 == s.finished.len() + rounds_below(s.tasks, s.next_id as nat).1 + 1,
{
    let new = s.next_id;
    let numbered = s.numbered();
    let active = set![id].insert(new);
    lemma_wf_numbered(s);
    lemma_numbering_undisturbed(s, set![id]);
    assert(s.running.contains(id));
    assert(active.remove(new) =~= set![id]);
    lemma_rounds_raise(s.tasks, s.next_id as nat, numbered.next_id as nat);
    if pause > 0 {
        let waker = Waker { task_id: new };
        let sub = Task { task: SleepTask { timeout: Timeout::Armed, ..sub_task_of(pause) } };
        let timed = numbered.timed(pause, waker);
        lemma_wf_timed(numbered, pause, waker);
        lemma_wf_suspended(timed, new, sub);
        lemma_arming_undisturbed(numbered, active, new, pause, sub);
        lemma_rounds_insert(numbered.tasks, numbered.next_id as nat, new, sub);
    } else {
        lemma_wf_completed(numbered, new);
        lemma_completing_undisturbed(numbered, active, new);
    }
}

/// Delivering a wake signal in a reactor of sleep tasks never finds it
/// stale, and leaves a reactor of sleep tasks with the same budget and with
/// no signal added to the queue.
pub proof fn lemma_delivery_keeps_sleepers_only(
    s: ReactorView<SleepTask>,
    later: ReactorView<SleepTask>,
    res: Poll,
    budget: nat,
)
    requires
        sleepers_only(s, budget),
        s.ready.len() > 0,
    ensures
        !s.front_is_stale(),
        s.resumed_to(later, res) ==> sleepers_only(later, budget) && later.ready
            == s.ready.drop_first(),
{
    let id = s.ready[0].task_id;
    let waker = s.ready[0].waker;
    let none = Set::<usize>::empty();
    lemma_taking_undisturbed(s, none);
    if s.resumed_to(later, res) {
        let task = s.tasks[id].task;
        let popped = s.dequeued();
        let taken = popped.taken(id);
        lemma_dequeued(s);
        lemma_wf_taken(popped, id);
        lemma_rounds_remove(s.tasks, s.next_id as nat, id);
        assert(none.insert(id) =~= set![id]);
        assert(set![id].remove(id) =~= none);
        assert(s.ready[0].wf());
        assert(waker == Waker { task_id: id });
        assert(task.timeout == Timeout::Armed);
        reveal_with_fuel(resumed, 2);
        if task.rounds == 0 {
            assert(later == taken.completed(id));
            lemma_wf_completed(taken, id);
            lemma_completing_undisturbed(taken, set![id], id);
        } else {
            let spawned = sub_spawned(taken, task.sub_pause);
            lemma_sub_spawned(taken, id, task.sub_pause, budget);
            if task.rounds == 1 {
                assert(later == spawned.completed(id));
                lemma_wf_completed(spawned, id);
                lemma_completing_undisturbed(spawned, set![id], id);
            } else {
                let armed = Task {
                    task: SleepTask {
                        rounds: (task.rounds - 1) as u64,
                        timeout: Timeout::Armed,
                        ..task
                    },
                };
                let timed = spawned.timed(task.pause, waker);
                assert(later == timed.suspended(id, armed));
                lemma_wf_timed(spawned, task.pause, waker);
                lemma_wf_suspended(timed, id, armed);
                lemma_arming_undisturbed(spawned, set![id], id, task.pause, armed);
                assert(!spawned.tasks.contains_key(id));
                lemma_rounds_insert(spawned.tasks, spawned.next_id as nat, id, armed);
            }
        }
    }
}

/// Reading the clock, waiting and firing the timers that are due keep a
/// reactor one of sleep tasks.
pub proof fn lemma_firing_keeps_sleepers_only(
    s: ReactorView<SleepTask>,
    reading: u64,
    elapsed: u64,
    budget: nat,
)
    requires
        sleepers_only(s, budget),
    ensures
        sleepers_only(s.clocked(reading), budget),
        sleepers_only(s.slept(), budget),
        sleepers_only(s.fired(elapsed), budget),
{
    lemma_ledger_frame(s, s.clocked(reading));
    lemma_tasks_frame(s, s.clocked(reading));
    lemma_ledger_frame(s, s.slept());
    lemma_tasks_frame(s, s.slept());
    lemma_wf_fired(s, elapsed);
    lemma_firing_undisturbed(s, Set::<usize>::empty(), reading, elapsed);
}

/// Draining the run queue of a reactor of sleep tasks never comes upon a
/// stale wake, and leaves a reactor of sleep tasks with the same budget.
pub proof fn lemma_drain_keeps_sleepers_only(
    s: ReactorView<SleepTask>,
    later: ReactorView<SleepTask>,
    n: nat,
    id: usize,
    budget: nat,
)
    requires
        sleepers_only(s, budget),
        n <= s.ready.len(),
    ensures
        !s.drain_fails(later, n, id),
        s.drains_to(later, n) ==> sleepers_only(later, budget),
    decreases n,
{
    if n > 0 {
        lemma_delivery_keeps_sleepers_only(s, later, Poll::Ready, budget);
        if s.drain_fails(later, n, id) {
            let (mid, res) = choose|mid: ReactorView<SleepTask>, res: Poll| #[trigger]
                s.resumed_to(mid, res) && mid.drain_fails(later, (n - 1) as nat, id);
            lemma_delivery_keeps_sleepers_only(s, mid, res, budget);
            lemma_drain_keeps_sleepers_only(mid, later, (n - 1) as nat, id, budget);
        }
        if s.drains_to(later, n) {
            let (mid, res) = choose|mid: ReactorView<SleepTask>, res: Poll| #[trigger]
                s.resumed_to(mid, res) && mid.drains_to(later, (n - 1) as nat);
            lemma_delivery_keeps_sleepers_only(s, mid, res, budget);
            lemma_drain_keeps_sleepers_only(mid, later, (n - 1) as nat, id, budget);
        }
    }
}

/// A run of sleep tasks never fails, and where it ends every task that the
/// budget provides for has been spawned and has completed: `budget - 1`
/// tasks in all.
pub proof fn lemma_run_of_sleepers_completes(
    s: ReactorView<SleepTask>,
    later: ReactorView<SleepTask>,
    rounds: nat,
    id: usize,
    budget: nat,
)
    requires
        sleepers_only(s, budget),
    ensures
        !s.run_fails(later, rounds, id),
        s.runs_to(later, rounds) ==> later.next_id == budget && later.finished.len() + 1
            == budget,
    decreases rounds,
{
    if rounds > 0 {
        lemma_firing_keeps_sleepers_only(s, s.clock, s.clock, budget);
        let slept = s.slept();
        lemma_firing_keeps_sleepers_only(slept, s.clock, s.clock, budget);
        let clocked = slept.clocked(s.clock);
        lemma_firing_keeps_sleepers_only(clocked, s.clock, s.clock, budget);
        let fired = clocked.fired(s.clock);
        lemma_drain_keeps_sleepers_only(fired, later, fired.ready.len(), id, budget);
        if s.run_fails(later, rounds, id) {
            if rounds > 1 {
                let mid = choose|mid: ReactorView<SleepTask>| #[trigger]
                    s.slept().ticks_to(s.clock, mid) && !mid.tasks.is_empty() && mid.run_fails(
                        later,
                        (rounds - 1) as nat,
                        id,
                    );
                lemma_drain_keeps_sleepers_only(fired, mid, fired.ready.len(), id, budget);
                lemma_run_of_sleepers_completes(mid, later, (rounds - 1) as nat, id, budget);
            }
        }
        if s.runs_to(later, rounds) {
            let mid = choose|mid: ReactorView<SleepTask>| #[trigger]
                s.slept().ticks_to(s.clock, mid) && if mid.tasks.is_empty() {
                    rounds == 1 && later == mid
                } else {
                    mid.runs_to(later, (rounds - 1) as nat)
                };
            lemma_drain_keeps_sleepers_only(fired, mid, fired.ready.len(), id, budget);
            if mid.tasks.is_empty() {
                lemma_rounds_of_none(mid.tasks, mid.next_id as nat);
            } else {
                lemma_run_of_sleepers_completes(mid, later, (rounds - 1) as nat, id, budget);
            }
        }
    }
}

/// Spawning the main task of the sample on a new reactor gives a reactor of
/// sleep tasks that spawns eleven tasks in all.
pub proof fn lemma_main_task_spawned(spawned: ReactorView<SleepTask>)
    requires
        ReactorView::<SleepTask>::fresh().spawned_to(main_task(), spawned),
    ensures
        sleepers_only(spawned, 12),
{
    let fresh = ReactorView::<SleepTask>::fresh();
    let numbered = fresh.numbered();
    let waker = Waker { task_id: 1 };
    let armed = Task { task: SleepTask { timeout: Timeout::Armed, ..main_task() } };
    let timed = numbered.timed(crate::sleep_task::SECOND, waker);
    let none = Set::<usize>::empty();
    assert(fresh.wf());
    lemma_wf_numbered(fresh);
    lemma_numbering_undisturbed(fresh, none);
    lemma_wf_timed(numbered, crate::sleep_task::SECOND, waker);
    assert(spawned == timed.suspended(1, armed));
    lemma_wf_suspended(timed, 1, armed);
    lemma_arming_undisturbed(numbered, none.insert(1), 1, crate::sleep_task::SECOND, armed);
    assert(none.insert(1).remove(1) =~= none);
    lemma_rounds_of_none(numbered.tasks, 2);
    lemma_rounds_insert(numbered.tasks, 2, 1, armed);
}

} // verus!
