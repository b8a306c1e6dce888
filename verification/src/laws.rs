use vstd::prelude::*;
use crate::computation::Computation;
use crate::poll::Poll;
use crate::state::signals_of;
use crate::state::ReactorView;
use crate::timer::ascending;
use crate::timer::due_count;
use crate::timer::lemma_due_count_sorted;
use crate::timeout::Timeout;
use crate::timer::Timer;
use crate::waker::NeedRun;
use crate::waker::Waker;

verus! {

/// Invoking a waker twice posts two wake signals for its task, one behind
/// the other at the back of the run queue. Nothing else changes.
pub proof fn lemma_two_wakes_post_two_signals<C>(s: ReactorView<C>, waker: Waker)
    ensures
        s.woken(waker).woken(waker) == (ReactorView {
            ready: s.ready + seq![
                NeedRun { task_id: waker.task_id, waker },
                NeedRun { task_id: waker.task_id, waker },
            ],
            ..s
        }),
{
    let signal = NeedRun { task_id: waker.task_id, waker };
    assert(s.ready.push(signal).push(signal) =~= s.ready + seq![signal, signal]);
}

/// Where two wake signals for one task lead the run queue and the task
/// completes when the first is delivered, the second is stale.
pub proof fn lemma_second_delivery_is_stale<C>(s: ReactorView<C>, later: ReactorView<C>)
    requires
        s.ready.len() >= 2,
        s.ready[0].task_id == s.ready[1].task_id,
        s.delivered_to(later, Poll::Ready),
    ensures
        later.front_is_stale(),
        later.ready[0] == s.ready[1],
{
    let id = s.ready[0].task_id;
    let rest = s.dequeued().without(id).ready;
    assert(rest[0] == s.ready[1]);
    assert(later.without(id).ready[0] == rest[0]);
}

/// A timer registered where `due_count` puts it leaves the timers in firing
/// order, whatever the order of registration.
pub proof fn lemma_registration_keeps_firing_order(s: Seq<Timer>, timer: Timer)
    requires
        ascending(s),
    ensures
        due_count(s, timer.wakeup_duration) <= s.len(),
        ascending(s.insert(due_count(s, timer.wakeup_duration) as int, timer)),
{
    lemma_due_count_sorted(s, timer.wakeup_duration);
    let at = due_count(s, timer.wakeup_duration) as int;
    let after = s.insert(at, timer);
    assert forall|i: int, j: int| 0 <= i <= j < after.len() implies (#[trigger] after[i]).wakeup_duration
        <= (#[trigger] after[j]).wakeup_duration by {
        if i < at && j > at {
            assert(after[i] == s[i] && after[j] == s[j - 1]);
        } else if i < at && j < at {
            assert(after[i] == s[i] && after[j] == s[j]);
        } else if i > at {
            assert(after[i] == s[i - 1] && after[j] == s[j - 1]);
        } else if i == at && j > at {
            assert(after[j] == s[j - 1]);
        } else if j == at && i < at {
            assert(after[i] == s[i]);
        }
    }
}

/// Timers fire in ascending order of their deadlines: the wake signals that
/// one firing posts follow the deadlines of their timers, every timer that
/// fired was due, and every timer that stays is not.
pub proof fn lemma_timers_fire_in_deadline_order<C>(s: ReactorView<C>, elapsed: u64)
    requires
        s.wf(),
    ensures
        due_count(s.timers, elapsed) <= s.timers.len(),
        s.fired(elapsed).ready == s.ready + signals_of(
            s.timers.take(due_count(s.timers, elapsed) as int),
        ),
        forall|i: int, j: int|
            0 <= i <= j < due_count(s.timers, elapsed) ==> (#[trigger] s.timers[i]).wakeup_duration
                <= (#[trigger] s.timers[j]).wakeup_duration <= elapsed,
        forall|i: int|
            0 <= i < s.fired(elapsed).timers.len() ==> (
            #[trigger] s.fired(elapsed).timers[i]).wakeup_duration > elapsed,
{
    lemma_due_count_sorted(s.timers, elapsed);
    let due = due_count(s.timers, elapsed) as int;
    assert forall|i: int| 0 <= i < s.fired(elapsed).timers.len() implies (
    #[trigger] s.fired(elapsed).timers[i]).wakeup_duration > elapsed by {
        assert(s.fired(elapsed).timers[i] == s.timers[i + due]);
    }
}

/// A timeout of zero completes on its first resumption and leaves the
/// reactor as it was: it never enters the timers.
pub proof fn lemma_timeout_zero_completes_at_once(
    reactor: ReactorView<Timeout>,
    waker: Waker,
    after: Timeout,
    later: ReactorView<Timeout>,
    res: Poll,
)
    requires
        Timeout::NotStarted(0).resumes_to(reactor, waker, after, later, res),
    ensures
        res is Ready,
        later == reactor,
        later.timers == reactor.timers,
{
}

/// A run that finds nothing pending — no timer, no wake signal, no
/// suspended task — ends in its first round in the state it started in: it
/// has not waited, and the clock has not moved.
pub proof fn lemma_run_with_nothing_pending_ends_at_once<C: Computation>(
    s: ReactorView<C>,
    later: ReactorView<C>,
    rounds: nat,
)
    requires
        s.timers.len() == 0,
        s.ready.len() == 0,
        s.tasks.is_empty(),
        s.runs_to(later, rounds),
    ensures
        rounds == 1,
        s.idle_time(s.clock) is None,
        later == s,
{
    assert(s.slept() == s);
    assert(s.clocked(s.clock) == s);
    let fired = s.fired(s.clock);
    assert(s.timers.skip(0) =~= s.timers);
    assert(s.ready + signals_of(s.timers.take(0)) =~= s.ready);
    assert(due_count(s.timers, s.clock) == 0);
    assert(fired == s);
}

/// A run that finds nothing pending cannot come upon a stale wake.
pub proof fn lemma_run_with_nothing_pending_cannot_fail<C: Computation>(
    s: ReactorView<C>,
    later: ReactorView<C>,
    rounds: nat,
    id: usize,
)
    requires
        s.timers.len() == 0,
        s.ready.len() == 0,
        s.tasks.is_empty(),
    ensures
        !s.run_fails(later, rounds, id),
    decreases rounds,
{
    assert(s.slept() == s);
    assert(s.clocked(s.clock) == s);
    assert(s.timers.skip(0) =~= s.timers);
    assert(s.ready + signals_of(s.timers.take(0)) =~= s.ready);
    assert(due_count(s.timers, s.clock) == 0);
    assert(s.fired(s.clock) == s);
    if rounds > 1 && s.run_fails(later, rounds, id) {
        let mid = choose|mid: ReactorView<C>| #[trigger]
            s.slept().ticks_to(s.clock, mid) && !mid.tasks.is_empty() && mid.run_fails(
                later,
                (rounds - 1) as nat,
                id,
            );
        assert(mid == s);
    }
}

/// Spawning a computation that completes on its first resumption without
/// asking anything of the reactor, and running the reactor until it is
/// idle, ends in the first round without waiting, if nothing else was
/// pending: only the id handed out and the completion are on record.
pub proof fn lemma_immediate_computation_returns_without_sleeping(
    spawned: ReactorView<Timeout>,
    end: ReactorView<Timeout>,
    rounds: nat,
)
    requires
        ReactorView::<Timeout>::fresh().spawned_to(Timeout::NotStarted(0), spawned),
        spawned.runs_to(end, rounds),
    ensures
        rounds == 1,
        end.clock == 0,
        end.finished == seq![1usize],
        end.timers.len() == 0,
{
    let fresh = ReactorView::<Timeout>::fresh();
    assert(spawned == fresh.numbered().completed(1));
    assert(spawned.tasks.dom() =~= Set::<usize>::empty());
    lemma_run_with_nothing_pending_ends_at_once(spawned, end, rounds);
    assert(end.finished =~= seq![1usize]);
}

} // verus!
