use vstd::prelude::*;
use crate::computation::Computation;
use crate::computation::Task;
use crate::state::deadline_after;
use crate::state::ReactorView;
use crate::timer::due_count;
use crate::timer::lemma_due_count_sorted;
use crate::waker::Waker;

verus! {

/// Nobody but the reactor has invoked a waker or registered a timer for
/// somebody else: the tasks in `active` are being resumed, and every pending
/// timer and every queued wake signal is for a suspended task of its own.
pub open spec fn undisturbed<C>(s: ReactorView<C>, active: Set<usize>) -> bool {
    &&& s.running == active
    &&& forall|i: int|
        0 <= i < s.timers.len() ==> s.tasks.contains_key((#[trigger] s.timers[i]).waker.task_id)
    &&& forall|i: int| 0 <= i < s.ready.len() ==> s.tasks.contains_key((#[trigger] s.ready[i]).task_id)
    &&& forall|i: int, j: int|
        0 <= i < j < s.timers.len() ==> (#[trigger] s.timers[i]).waker.task_id != (
        #[trigger] s.timers[j]).waker.task_id
    &&& forall|i: int, j: int|
        0 <= i < j < s.ready.len() ==> (#[trigger] s.ready[i]).task_id != (
        #[trigger] s.ready[j]).task_id
    &&& forall|i: int, j: int|
        0 <= i < s.timers.len() && 0 <= j < s.ready.len() ==> (
        #[trigger] s.timers[i]).waker.task_id != (#[trigger] s.ready[j]).task_id
}

/// Reading the clock, waiting and firing the timers that are due leave a
/// reactor undisturbed.
pub proof fn lemma_firing_undisturbed<C: Computation>(
    s: ReactorView<C>,
    active: Set<usize>,
    reading: u64,
    elapsed: u64,
)
    requires
        s.wf(),
        undisturbed(s, active),
    ensures
        undisturbed(s.clocked(reading), active),
        undisturbed(s.slept(), active),
        undisturbed(s.fired(elapsed), active),
{
    lemma_due_count_sorted(s.timers, elapsed);
    let k = due_count(s.timers, elapsed) as int;
    let after = s.fired(elapsed);
    let n = s.ready.len() as int;
    assert forall|i: int| 0 <= i < after.timers.len() implies after.tasks.contains_key(
        (#[trigger] after.timers[i]).waker.task_id,
    ) by {
        assert(after.timers[i] == s.timers[i + k]);
    }
    assert forall|i: int| 0 <= i < after.ready.len() implies after.tasks.contains_key(
        (#[trigger] after.ready[i]).task_id,
    ) by {
        if i < n {
            assert(after.ready[i] == s.ready[i]);
        } else {
            assert(after.ready[i].task_id == s.timers[i - n].waker.task_id);
        }
    }
    assert forall|i: int, j: int| 0 <= i < j < after.timers.len() implies (
    #[trigger] after.timers[i]).waker.task_id != (#[trigger] after.timers[j]).waker.task_id by {
        assert(after.timers[i] == s.timers[i + k]);
        assert(after.timers[j] == s.timers[j + k]);
    }
    assert forall|i: int, j: int| 0 <= i < j < after.ready.len() implies (
    #[trigger] after.ready[i]).task_id != (#[trigger] after.ready[j]).task_id by {
        if j < n {
            assert(after.ready[i] == s.ready[i] && after.ready[j] == s.ready[j]);
        } else if i < n {
            assert(after.ready[i] == s.ready[i]);
            assert(after.ready[j].task_id == s.timers[j - n].waker.task_id);
        } else {
            assert(after.ready[i].task_id == s.timers[i - n].waker.task_id);
            assert(after.ready[j].task_id == s.timers[j - n].waker.task_id);
        }
    }
    assert forall|i: int, j: int|
        0 <= i < after.timers.len() && 0 <= j < after.ready.len() implies (
    #[trigger] after.timers[i]).waker.task_id != (#[trigger] after.ready[j]).task_id by {
        assert(after.timers[i] == s.timers[i + k]);
        if j < n {
            assert(after.ready[j] == s.ready[j]);
        } else {
            assert(after.ready[j].task_id == s.timers[j - n].waker.task_id);
        }
    }
}

/// In an undisturbed reactor the oldest wake signal is not stale, and with
/// its task taken out to be resumed the reactor is undisturbed still.
pub proof fn lemma_taking_undisturbed<C>(s: ReactorView<C>, active: Set<usize>)
    requires
        undisturbed(s, active),
        s.ready.len() > 0,
    ensures
        !s.front_is_stale(),
        undisturbed(
            s.dequeued().taken(s.ready[0].task_id),
            active.insert(s.ready[0].task_id),
        ),
{
    let id = s.ready[0].task_id;
    let later = s.dequeued().taken(id);
    assert(s.tasks.contains_key(id));
    assert forall|i: int| 0 <= i < later.timers.len() implies later.tasks.contains_key(
        (#[trigger] later.timers[i]).waker.task_id,
    ) by {
        assert(s.timers[i].waker.task_id != s.ready[0].task_id);
    }
    assert forall|i: int| 0 <= i < later.ready.len() implies later.tasks.contains_key(
        (#[trigger] later.ready[i]).task_id,
    ) by {
        assert(later.ready[i] == s.ready[i + 1]);
        assert(s.ready[0].task_id != s.ready[i + 1].task_id);
    }
    assert forall|i: int, j: int| 0 <= i < j < later.ready.len() implies (
    #[trigger] later.ready[i]).task_id != (#[trigger] later.ready[j]).task_id by {
        assert(later.ready[i] == s.ready[i + 1] && later.ready[j] == s.ready[j + 1]);
    }
    assert forall|i: int, j: int|
        0 <= i < later.timers.len() && 0 <= j < later.ready.len() implies (
    #[trigger] later.timers[i]).waker.task_id != (#[trigger] later.ready[j]).task_id by {
        assert(later.ready[j] == s.ready[j + 1]);
    }
}

/// Handing out the next id leaves a reactor undisturbed.
pub proof fn lemma_numbering_undisturbed<C>(s: ReactorView<C>, active: Set<usize>)
    requires
        undisturbed(s, active),
    ensures
        undisturbed(s.numbered(), active.insert(s.next_id)),
{
}

/// A task that is being resumed and completes leaves a reactor undisturbed.
pub proof fn lemma_completing_undisturbed<C>(s: ReactorView<C>, active: Set<usize>, id: usize)
    requires
        undisturbed(s, active),
    ensures
        undisturbed(s.completed(id), active.remove(id)),
{
}

/// A task that is being resumed, is not named by any timer or wake signal,
/// registers a timer for itself and suspends leaves a reactor undisturbed.
pub proof fn lemma_arming_undisturbed<C>(
    s: ReactorView<C>,
    active: Set<usize>,
    id: usize,
    duration: u64,
    task: Task<C>,
)
    requires
        s.wf(),
        undisturbed(s, active),
        active.contains(id),
    ensures
        undisturbed(
            s.timed(duration, Waker { task_id: id }).suspended(id, task),
            active.remove(id),
        ),
{
    let later = s.timed(duration, Waker { task_id: id }).suspended(id, task);
    let deadline = deadline_after(s.clock, duration);
    lemma_due_count_sorted(s.timers, deadline);
    let at = due_count(s.timers, deadline) as int;
    assert(!s.tasks.contains_key(id));
    assert forall|i: int| 0 <= i < later.timers.len() implies later.tasks.contains_key(
        (#[trigger] later.timers[i]).waker.task_id,
    ) by {
        if i < at {
            assert(later.timers[i] == s.timers[i]);
        } else if i > at {
            assert(later.timers[i] == s.timers[i - 1]);
        }
    }
    assert forall|i: int, j: int| 0 <= i < j < later.timers.len() implies (
    #[trigger] later.timers[i]).waker.task_id != (#[trigger] later.timers[j]).waker.task_id by {
        let a = if i < at {
            i
        } else {
            i - 1
        };
        let b = if j < at {
            j
        } else {
            j - 1
        };
        if i != at {
            assert(later.timers[i] == s.timers[a]);
            assert(s.tasks.contains_key(s.timers[a].waker.task_id));
        }
        if j != at {
            assert(later.timers[j] == s.timers[b]);
            assert(s.tasks.contains_key(s.timers[b].waker.task_id));
        }
    }
    assert forall|i: int, j: int|
        0 <= i < later.timers.len() && 0 <= j < later.ready.len() implies (
    #[trigger] later.timers[i]).waker.task_id != (#[trigger] later.ready[j]).task_id by {
        assert(s.tasks.contains_key(s.ready[j].task_id));
        if i < at {
            assert(later.timers[i] == s.timers[i]);
        } else if i > at {
            assert(later.timers[i] == s.timers[i - 1]);
        }
    }
}

} // verus!
