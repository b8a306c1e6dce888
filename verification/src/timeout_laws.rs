use vstd::prelude::*;
use crate::computation::Task;
use crate::poll::Poll;
use crate::state::lemma_dequeued;
use crate::state::lemma_ledger_frame;
use crate::state::lemma_tasks_frame;
use crate::state::lemma_wf_completed;
use crate::state::lemma_wf_fired;
use crate::state::lemma_wf_numbered;
use crate::state::lemma_wf_suspended;
use crate::state::lemma_wf_taken;
use crate::state::lemma_wf_timed;
use crate::state::ReactorView;
use crate::timeout::Timeout;
use crate::timer::due_count;
use crate::timer::lemma_due_count_sorted;
use crate::timer::Timer;
use crate::waker::NeedRun;
use crate::undisturbed::lemma_arming_undisturbed;
use crate::undisturbed::lemma_completing_undisturbed;
use crate::undisturbed::lemma_firing_undisturbed;
use crate::undisturbed::lemma_numbering_undisturbed;
use crate::undisturbed::lemma_taking_undisturbed;
use crate::undisturbed::undisturbed;
use crate::waker::Waker;

verus! {

/// An undisturbed reactor of timeouts: it is in order, no task is being
/// resumed, every pending timer and every queued wake signal is for a
/// suspended task of its own, and every suspended timeout is armed.
pub open spec fn timeouts_only(s: ReactorView<Timeout>) -> bool {
    &&& s.wf()
    &&& undisturbed(s, Set::<usize>::empty())
    &&& forall|id: usize| #[trigger] s.tasks.contains_key(id) ==> s.tasks[id].task == Timeout::Armed
}

/// A new reactor is one of timeouts only.
pub proof fn lemma_fresh_is_timeouts_only()
    ensures
        timeouts_only(ReactorView::<Timeout>::fresh()),
{
    let s = ReactorView::<Timeout>::fresh();
    assert(s.wf());
}

/// Spawning a timeout that has not started keeps a reactor one of timeouts
/// only: a timeout of zero completes at once, any other registers its timer
/// and is suspended.
pub proof fn lemma_spawn_keeps_timeouts_only(
    s: ReactorView<Timeout>,
    duration: u64,
    later: ReactorView<Timeout>,
)
    requires
        timeouts_only(s),
        s.next_id < usize::MAX,
        s.spawned_to(Timeout::NotStarted(duration), later),
    ensures
        timeouts_only(later),
        duration == 0 ==> later == s.numbered().completed(s.next_id),
        duration > 0 ==> later == s.numbered().timed(
            duration,
            Waker { task_id: s.next_id },
        ).suspended(s.next_id, Task { task: Timeout::Armed }),
{
    let id = s.next_id;
    let waker = Waker { task_id: id };
    let none = Set::<usize>::empty();
    let numbered = s.numbered();
    lemma_wf_numbered(s);
    lemma_numbering_undisturbed(s, none);
    if duration == 0 {
        assert(later == numbered.completed(id));
        lemma_wf_completed(numbered, id);
        lemma_completing_undisturbed(numbered, none.insert(id), id);
    } else {
        let timed = numbered.timed(duration, waker);
        lemma_wf_timed(numbered, duration, waker);
        assert(later == timed.suspended(id, Task { task: Timeout::Armed }));
        lemma_wf_suspended(timed, id, Task { task: Timeout::Armed });
        lemma_arming_undisturbed(
            numbered,
            none.insert(id),
            id,
            duration,
            Task { task: Timeout::Armed },
        );
    }
    assert(none.insert(id).remove(id) =~= none);
}

/// Reading the clock, waiting and firing the timers that are due keep a
/// reactor one of timeouts only.
pub proof fn lemma_firing_keeps_timeouts_only(s: ReactorView<Timeout>, reading: u64, elapsed: u64)
    requires
        timeouts_only(s),
    ensures
        timeouts_only(s.clocked(reading)),
        timeouts_only(s.slept()),
        timeouts_only(s.fired(elapsed)),
{
    lemma_ledger_frame(s, s.clocked(reading));
    lemma_tasks_frame(s, s.clocked(reading));
    lemma_ledger_frame(s, s.slept());
    lemma_tasks_frame(s, s.slept());
    lemma_wf_fired(s, elapsed);
    lemma_firing_undisturbed(s, Set::<usize>::empty(), reading, elapsed);
}

/// In a reactor of timeouts only a wake signal is never stale, the task it
/// is delivered to completes, and the reactor stays one of timeouts only.
pub proof fn lemma_delivery_keeps_timeouts_only(
    s: ReactorView<Timeout>,
    later: ReactorView<Timeout>,
    res: Poll,
)
    requires
        timeouts_only(s),
        s.ready.len() > 0,
    ensures
        !s.front_is_stale(),
        s.resumed_to(later, res) ==> res is Ready && timeouts_only(later) && later
            == s.dequeued().taken(s.ready[0].task_id).completed(s.ready[0].task_id),
{
    let id = s.ready[0].task_id;
    let none = Set::<usize>::empty();
    lemma_taking_undisturbed(s, none);
    if s.resumed_to(later, res) {
        let popped = s.dequeued();
        let taken = popped.taken(id);
        lemma_dequeued(s);
        lemma_wf_taken(popped, id);
        assert(s.tasks[id].task == Timeout::Armed);
        assert(later == taken.completed(id));
        lemma_wf_completed(taken, id);
        lemma_completing_undisturbed(taken, none.insert(id), id);
        assert(none.insert(id).remove(id) =~= none);
    }
}

/// Draining the run queue of a reactor of timeouts only never comes upon a
/// stale wake, and leaves a reactor of timeouts only.
pub proof fn lemma_drain_keeps_timeouts_only(
    s: ReactorView<Timeout>,
    later: ReactorView<Timeout>,
    n: nat,
    id: usize,
)
    requires
        timeouts_only(s),
        n <= s.ready.len(),
    ensures
        !s.drain_fails(later, n, id),
        s.drains_to(later, n) ==> timeouts_only(later),
    decreases n,
{
    if n > 0 {
        lemma_delivery_keeps_timeouts_only(s, later, Poll::Ready);
        if s.drain_fails(later, n, id) {
            let (mid, res) = choose|mid: ReactorView<Timeout>, res: Poll| #[trigger]
                s.resumed_to(mid, res) && mid.drain_fails(later, (n - 1) as nat, id);
            lemma_delivery_keeps_timeouts_only(s, mid, res);
            lemma_drain_keeps_timeouts_only(mid, later, (n - 1) as nat, id);
        }
        if s.drains_to(later, n) {
            let (mid, res) = choose|mid: ReactorView<Timeout>, res: Poll| #[trigger]
                s.resumed_to(mid, res) && mid.drains_to(later, (n - 1) as nat);
            lemma_delivery_keeps_timeouts_only(s, mid, res);
            lemma_drain_keeps_timeouts_only(mid, later, (n - 1) as nat, id);
        }
    }
}

/// A run of timeouts only never fails: as long as nobody but the reactor
/// invokes a waker, no wake signal is ever stale. Where it ends, the reactor
/// is one of timeouts only still.
pub proof fn lemma_run_of_timeouts_cannot_fail(
    s: ReactorView<Timeout>,
    later: ReactorView<Timeout>,
    rounds: nat,
    id: usize,
)
    requires
        timeouts_only(s),
    ensures
        !s.run_fails(later, rounds, id),
        s.runs_to(later, rounds) ==> timeouts_only(later),
    decreases rounds,
{
    if rounds > 0 {
        lemma_firing_keeps_timeouts_only(s, s.clock, s.clock);
        let slept = s.slept();
        lemma_firing_keeps_timeouts_only(slept, s.clock, s.clock);
        let clocked = slept.clocked(s.clock);
        lemma_firing_keeps_timeouts_only(clocked, s.clock, s.clock);
        let fired = clocked.fired(s.clock);
        lemma_drain_keeps_timeouts_only(fired, later, fired.ready.len(), id);
        if s.run_fails(later, rounds, id) {
            if rounds > 1 {
                let mid = choose|mid: ReactorView<Timeout>| #[trigger]
                    s.slept().ticks_to(s.clock, mid) && !mid.tasks.is_empty() && mid.run_fails(
                        later,
                        (rounds - 1) as nat,
                        id,
                    );
                lemma_drain_keeps_timeouts_only(fired, mid, fired.ready.len(), id);
                lemma_run_of_timeouts_cannot_fail(mid, later, (rounds - 1) as nat, id);
            }
        }
        if s.runs_to(later, rounds) {
            let mid = choose|mid: ReactorView<Timeout>| #[trigger]
                s.slept().ticks_to(s.clock, mid) && if mid.tasks.is_empty() {
                    rounds == 1 && later == mid
                } else {
                    mid.runs_to(later, (rounds - 1) as nat)
                };
            lemma_drain_keeps_timeouts_only(fired, mid, fired.ready.len(), id);
            if !mid.tasks.is_empty() {
                lemma_run_of_timeouts_cannot_fail(mid, later, (rounds - 1) as nat, id);
            }
        }
    }
}

/// The tasks that the wake signals of `s` are for, in the same order.
pub open spec fn signal_ids(s: Seq<NeedRun>) -> Seq<usize> {
    Seq::new(s.len(), |i: int| s[i].task_id)
}

/// The tasks that the timers of `s` wake, in the same order.
pub open spec fn timer_ids(s: Seq<Timer>) -> Seq<usize> {
    Seq::new(s.len(), |i: int| s[i].waker.task_id)
}

/// Draining the run queue of a reactor of timeouts only completes the tasks
/// that the delivered signals name, in the order of the signals, and
/// changes nothing else.
pub proof fn lemma_drain_completes_in_queue_order(
    s: ReactorView<Timeout>,
    later: ReactorView<Timeout>,
    n: nat,
)
    requires
        timeouts_only(s),
        n <= s.ready.len(),
        s.drains_to(later, n),
    ensures
        timeouts_only(later),
        later.finished == s.finished + signal_ids(s.ready.take(n as int)),
        later.ready == s.ready.skip(n as int),
        later.timers == s.timers,
        later.clock == s.clock,
        later.next_id == s.next_id,
    decreases n,
{
    if n == 0 {
        assert(s.finished + signal_ids(s.ready.take(0)) =~= s.finished);
        assert(s.ready.skip(0) =~= s.ready);
    } else {
        let (mid, res) = choose|mid: ReactorView<Timeout>, res: Poll| #[trigger]
            s.resumed_to(mid, res) && mid.drains_to(later, (n - 1) as nat);
        lemma_delivery_keeps_timeouts_only(s, mid, res);
        lemma_drain_completes_in_queue_order(mid, later, (n - 1) as nat);
        let id = s.ready[0].task_id;
        assert(mid == s.dequeued().taken(id).completed(id));
        assert(mid.ready.skip(n - 1) =~= s.ready.skip(n as int));
        assert(s.finished.push(id) + signal_ids(mid.ready.take(n - 1)) =~= s.finished
            + signal_ids(s.ready.take(n as int))) by {
            let left = s.finished.push(id) + signal_ids(mid.ready.take(n - 1));
            let right = s.finished + signal_ids(s.ready.take(n as int));
            assert(left.len() == right.len());
            assert forall|i: int| 0 <= i < left.len() implies left[i] == right[i] by {
                let f = s.finished.len() as int;
                if i > f {
                    assert(mid.ready.take(n - 1)[i - f - 1] == s.ready[i - f]);
                }
            }
        }
    }
}

/// One round of the event loop in a reactor of timeouts only completes the
/// tasks that the queued wake signals name and then those whose timers are
/// due, in this order, and leaves the timers that are not due.
pub proof fn lemma_round_of_timeouts(s: ReactorView<Timeout>, mid: ReactorView<Timeout>)
    requires
        timeouts_only(s),
        s.slept().ticks_to(s.clock, mid),
    ensures
        timeouts_only(mid),
        due_count(s.timers, s.clock) <= s.timers.len(),
        mid.finished == s.finished + signal_ids(s.ready) + timer_ids(
            s.timers.take(due_count(s.timers, s.clock) as int),
        ),
        mid.ready.len() == 0,
        mid.timers == s.timers.skip(due_count(s.timers, s.clock) as int),
        mid.next_id == s.next_id,
{
    lemma_firing_keeps_timeouts_only(s, s.clock, s.clock);
    let slept = s.slept();
    lemma_firing_keeps_timeouts_only(slept, s.clock, s.clock);
    let clocked = slept.clocked(s.clock);
    lemma_firing_keeps_timeouts_only(clocked, s.clock, s.clock);
    let fired = clocked.fired(s.clock);
    lemma_due_count_sorted(s.timers, s.clock);
    let k = due_count(s.timers, s.clock) as int;
    lemma_drain_completes_in_queue_order(fired, mid, fired.ready.len());
    assert(fired.ready.take(fired.ready.len() as int) =~= fired.ready);
    assert(mid.ready =~= Seq::<NeedRun>::empty());
    assert(signal_ids(fired.ready) =~= signal_ids(s.ready) + timer_ids(s.timers.take(k)));
    assert(s.finished + signal_ids(fired.ready) =~= s.finished + signal_ids(s.ready) + timer_ids(
        s.timers.take(k),
    ));
}

/// The tasks woken by the first `k` timers followed by those woken by the
/// rest are the tasks woken by all of them.
proof fn lemma_timer_ids_split(s: Seq<Timer>, k: int)
    requires
        0 <= k <= s.len(),
    ensures
        timer_ids(s.take(k)) + timer_ids(s.skip(k)) == timer_ids(s),
{
    assert(timer_ids(s.take(k)) + timer_ids(s.skip(k)) =~= timer_ids(s));
}

/// A run of timeouts only completes the tasks in the order in which they
/// are woken: first those that the queued wake signals name, in the order
/// of the signals, then those that the pending timers wake, in firing order
/// — by ascending deadline, and by registration among equal deadlines. When
/// it ends no timer and no signal is left.
pub proof fn lemma_run_of_timeouts_completes_in_firing_order(
    s: ReactorView<Timeout>,
    later: ReactorView<Timeout>,
    rounds: nat,
)
    requires
        timeouts_only(s),
        s.runs_to(later, rounds),
    ensures
        later.finished == s.finished + signal_ids(s.ready) + timer_ids(s.timers),
        later.timers.len() == 0,
        later.ready.len() == 0,
        later.tasks.is_empty(),
        later.next_id == s.next_id,
    decreases rounds,
{
    let mid = choose|mid: ReactorView<Timeout>| #[trigger]
        s.slept().ticks_to(s.clock, mid) && if mid.tasks.is_empty() {
            rounds == 1 && later == mid
        } else {
            mid.runs_to(later, (rounds - 1) as nat)
        };
    lemma_round_of_timeouts(s, mid);
    let k = due_count(s.timers, s.clock) as int;
    let done = s.finished + signal_ids(s.ready);
    let due = timer_ids(s.timers.take(k));
    let rest = timer_ids(s.timers.skip(k));
    lemma_timer_ids_split(s.timers, k);
    assert(done + due + rest == done + timer_ids(s.timers)) by {
        assert(done + due + rest =~= done + (due + rest));
    }
    if mid.tasks.is_empty() {
        assert(mid.timers.len() == 0) by {
            assert(mid.tasks.dom() =~= Set::<usize>::empty());
            if mid.timers.len() > 0 {
                assert(mid.tasks.contains_key(mid.timers[0].waker.task_id));
            }
        }
        assert(rest =~= Seq::<usize>::empty());
        assert(done + due + rest =~= done + due);
    } else {
        lemma_run_of_timeouts_completes_in_firing_order(mid, later, (rounds - 1) as nat);
        assert(signal_ids(mid.ready) =~= Seq::<usize>::empty());
        assert(mid.finished + signal_ids(mid.ready) + rest =~= done + due + rest);
    }
}

/// The clock reading at which a run that starts in state `s` ends, given
/// that every pending timer fires in it: the last deadline, unless the clock
/// is past it already.
pub open spec fn clock_after_last_timer(s: ReactorView<Timeout>) -> u64 {
    if s.timers.len() > 0 && s.timers.last().wakeup_duration > s.clock {
        s.timers.last().wakeup_duration
    } else {
        s.clock
    }
}

/// A run of timeouts only waits exactly as long as it has to: it ends with
/// the clock at the deadline of the last timer, or where it was if that is
/// later. So no task completes before its deadline has come.
pub proof fn lemma_run_of_timeouts_ends_at_the_last_deadline(
    s: ReactorView<Timeout>,
    later: ReactorView<Timeout>,
    rounds: nat,
)
    requires
        timeouts_only(s),
        s.runs_to(later, rounds),
    ensures
        later.clock == clock_after_last_timer(s),
        forall|i: int| 0 <= i < s.timers.len() ==> (#[trigger] s.timers[i]).wakeup_duration
            <= later.clock,
    decreases rounds,
{
    let mid = choose|mid: ReactorView<Timeout>| #[trigger]
        s.slept().ticks_to(s.clock, mid) && if mid.tasks.is_empty() {
            rounds == 1 && later == mid
        } else {
            mid.runs_to(later, (rounds - 1) as nat)
        };
    lemma_round_of_timeouts(s, mid);
    lemma_due_count_sorted(s.timers, s.clock);
    let k = due_count(s.timers, s.clock) as int;
    let n = s.timers.len() as int;
    assert(mid.clock == s.slept().clock) by {
        lemma_firing_keeps_timeouts_only(s, s.clock, s.clock);
        let slept = s.slept();
        lemma_firing_keeps_timeouts_only(slept, s.clock, s.clock);
        let clocked = slept.clocked(s.clock);
        lemma_firing_keeps_timeouts_only(clocked, s.clock, s.clock);
        let fired = clocked.fired(s.clock);
        lemma_drain_completes_in_queue_order(fired, mid, fired.ready.len());
    }
    if mid.tasks.is_empty() {
        assert(mid.timers.len() == 0) by {
            assert(mid.tasks.dom() =~= Set::<usize>::empty());
            if mid.timers.len() > 0 {
                assert(mid.tasks.contains_key(mid.timers[0].waker.task_id));
            }
        }
        assert(k == n);
        if n > 0 {
            assert(s.timers[n - 1].wakeup_duration <= s.clock);
            assert(s.timers[0].wakeup_duration <= s.clock);
        }
        assert forall|i: int| 0 <= i < s.timers.len() implies (#[trigger] s.timers[i]).wakeup_duration
            <= later.clock by {
            assert(s.timers[i].wakeup_duration <= s.clock);
        }
    } else {
        lemma_run_of_timeouts_ends_at_the_last_deadline(mid, later, (rounds - 1) as nat);
        assert(mid.timers.len() > 0) by {
            assert(exists|id: usize| mid.tasks.contains_key(id)) by {
                if forall|id: usize| !mid.tasks.contains_key(id) {
                    assert(mid.tasks.dom() =~= Set::<usize>::empty());
                }
            }
            let id = choose|id: usize| mid.tasks.contains_key(id);
            assert(mid.awaited(id));
        }
        assert(mid.timers.last() == s.timers.last());
        assert(s.timers[0].wakeup_duration <= s.timers[n - 1].wakeup_duration);
        assert forall|i: int| 0 <= i < s.timers.len() implies (#[trigger] s.timers[i]).wakeup_duration
            <= later.clock by {
            if i < k {
                assert(s.timers[i].wakeup_duration <= s.clock);
            } else {
                assert(mid.timers[i - k] == s.timers[i]);
            }
        }
    }
}

} // verus!
