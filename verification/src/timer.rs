use vstd::prelude::*;
use std::collections::VecDeque;
use crate::waker::Waker;

verus! {

/// A deadline, counted in clock units since the reactor's start, and the
/// waker to invoke once the clock has reached it.
#[derive(Clone, Copy, Debug)]
pub struct Timer {
    pub wakeup_duration: u64,
    pub waker: Waker,
}

/// `s` is in firing order: deadlines never decrease from front to back.
pub open spec fn ascending(s: Seq<Timer>) -> bool {
    forall|i: int, j: int|
        0 <= i <= j < s.len() ==> (#[trigger] s[i]).wakeup_duration <= (
        #[trigger] s[j]).wakeup_duration
}

/// How many entries of `s` fire no later than `deadline`. In a sequence in
/// firing order this is where a new timer with that deadline belongs: behind
/// every entry that is due at or before it, ahead of every later one.
pub open spec fn due_count(s: Seq<Timer>, deadline: u64) -> nat
    decreases s.len(),
{
    if s.len() == 0 {
        0
    } else {
        due_count(s.drop_last(), deadline) + if s.last().wakeup_duration <= deadline {
            1nat
        } else {
            0nat
        }
    }
}

/// `due_count` never exceeds the length.
pub proof fn lemma_due_count_bound(s: Seq<Timer>, deadline: u64)
    ensures
        due_count(s, deadline) <= s.len(),
    decreases s.len(),
{
    if s.len() > 0 {
        lemma_due_count_bound(s.drop_last(), deadline);
    }
}

/// In a sequence in firing order the entries due by `deadline` are exactly
/// the first `due_count` ones: a split point with everything before it due
/// and everything from it on later is that count.
pub proof fn lemma_due_count_split(s: Seq<Timer>, deadline: u64, k: int)
    requires
        0 <= k <= s.len(),
        forall|i: int| 0 <= i < k ==> (#[trigger] s[i]).wakeup_duration <= deadline,
        forall|i: int| k <= i < s.len() ==> (#[trigger] s[i]).wakeup_duration > deadline,
    ensures
        due_count(s, deadline) == k,
    decreases s.len(),
{
    if s.len() > 0 {
        let t = s.drop_last();
        if k == s.len() {
            lemma_due_count_split(t, deadline, k - 1);
        } else {
            lemma_due_count_split(t, deadline, k);
        }
    }
}

/// In a sequence in firing order, every entry before `due_count` is due by
/// `deadline` and every entry from there on is later.
pub proof fn lemma_due_count_sorted(s: Seq<Timer>, deadline: u64)
    requires
        ascending(s),
    ensures
        due_count(s, deadline) <= s.len(),
        forall|i: int|
            0 <= i < due_count(s, deadline) ==> (#[trigger] s[i]).wakeup_duration <= deadline,
        forall|i: int|
            due_count(s, deadline) <= i < s.len() ==> (#[trigger] s[i]).wakeup_duration
                > deadline,
    decreases s.len(),
{
    if s.len() > 0 {
        let t = s.drop_last();
        assert(ascending(t)) by {
            assert forall|i: int, j: int| 0 <= i <= j < t.len() implies (#[trigger] t[i]).wakeup_duration
                <= (#[trigger] t[j]).wakeup_duration by {
                assert(t[i] == s[i] && t[j] == s[j]);
            }
        }
        lemma_due_count_sorted(t, deadline);
        lemma_due_count_bound(t, deadline);
        let k = due_count(t, deadline);
        if s.last().wakeup_duration <= deadline {
            // everything before the last entry is no later than it
            assert forall|i: int| 0 <= i < t.len() implies (#[trigger] t[i]).wakeup_duration
                <= deadline by {
                assert(t[i] == s[i]);
                assert(s[i].wakeup_duration <= s[s.len() - 1].wakeup_duration);
            }
            if k < t.len() {
                assert(t[k as int].wakeup_duration > deadline);
                assert(false);
            }
            assert forall|i: int| 0 <= i < due_count(s, deadline) implies (#[trigger] s[i]).wakeup_duration
                <= deadline by {
                if i < t.len() {
                    assert(t[i] == s[i]);
                }
            }
        } else {
            assert forall|i: int| 0 <= i < due_count(s, deadline) implies (#[trigger] s[i]).wakeup_duration
                <= deadline by {
                assert(t[i] == s[i]);
            }
            assert forall|i: int| due_count(s, deadline) <= i < s.len() implies (#[trigger] s[i]).wakeup_duration
                > deadline by {
                if i < t.len() {
                    assert(t[i] == s[i]);
                }
            }
        }
    }
}

/// The pending timers of a reactor: a priority queue that hands them out by
/// ascending deadline. Among timers with the same deadline the one
/// registered first fires first.
pub struct TimerHeap {
    timers: VecDeque<Timer>,
}

impl View for TimerHeap {
    type V = Seq<Timer>;

    closed spec fn view(&self) -> Seq<Timer> {
        self.timers@
    }
}

impl TimerHeap {
    /// The entries are in firing order.
    pub open spec fn wf(&self) -> bool {
        ascending(self@)
    }

    /// A heap without timers.
    pub fn new() -> (heap: TimerHeap)
        ensures
            heap@ == Seq::<Timer>::empty(),
            heap.wf(),
    {
        TimerHeap { timers: VecDeque::new() }
    }

    /// The number of pending timers.
    pub fn len(&self) -> (n: usize)
        ensures
            n == self@.len(),
    {
        self.timers.len()
    }

    /// Whether no timer is pending.
    pub fn is_empty(&self) -> (empty: bool)
        ensures
            empty == (self@.len() == 0),
    {
        self.timers.len() == 0
    }

    /// The timer that fires next, if any. In a well-formed heap no pending
    /// timer has an earlier deadline.
    pub fn peek(&self) -> (next: Option<Timer>)
        ensures
            next is None <==> self@.len() == 0,
            next matches Some(t) ==> t == self@[0],
            next matches Some(t) ==> self.wf() ==> forall|i: int|
                0 <= i < self@.len() ==> t.wakeup_duration <= (#[trigger] self@[i]).wakeup_duration,
    {
        if self.timers.len() == 0 {
            None
        } else {
            Some(self.timers[0])
        }
    }

    /// Registers `timer` behind every pending timer that is due at or before
    /// its deadline and ahead of every later one.
    pub fn push(&mut self, timer: Timer)
        requires
            old(self).wf(),
        ensures
            final(self).wf(),
            due_count(old(self)@, timer.wakeup_duration) <= old(self)@.len(),
            final(self)@ == old(self)@.insert(
                due_count(old(self)@, timer.wakeup_duration) as int,
                timer,
            ),
    {
        let ghost before = self.timers@;
        let mut at: usize = self.timers.len();
        while at > 0 && self.timers[at - 1].wakeup_duration > timer.wakeup_duration
            invariant
                at <= self.timers.len(),
                self.timers@ == before,
                ascending(before),
                forall|i: int|
                    at <= i < before.len() ==> (#[trigger] before[i]).wakeup_duration
                        > timer.wakeup_duration,
            decreases at,
        {
            at = at - 1;
        }
        proof {
            assert forall|i: int| 0 <= i < at implies (#[trigger] before[i]).wakeup_duration
                <= timer.wakeup_duration by {
                assert(before[i].wakeup_duration <= before[at - 1].wakeup_duration);
            }
            lemma_due_count_split(before, timer.wakeup_duration, at as int);
        }
        self.timers.insert(at, timer);
        proof {
            let after = self.timers@;
            assert forall|i: int, j: int| 0 <= i <= j < after.len() implies (#[trigger] after[i]).wakeup_duration
                <= (#[trigger] after[j]).wakeup_duration by {
                if i < at && j > at {
                    assert(after[i] == before[i] && after[j] == before[j - 1]);
                } else if i < at && j < at {
                    assert(after[i] == before[i] && after[j] == before[j]);
                } else if i > at {
                    assert(after[i] == before[i - 1] && after[j] == before[j - 1]);
                } else if i == at && j > at {
                    assert(after[j] == before[j - 1]);
                } else if j == at && i < at {
                    assert(after[i] == before[i]);
                }
            }
        }
    }

    /// Removes and returns the timer that fires next, if any.
    pub fn pop(&mut self) -> (next: Option<Timer>)
        ensures
            next is None <==> old(self)@.len() == 0,
            next is None ==> final(self)@ == old(self)@,
            next matches Some(t) ==> t == old(self)@[0] && final(self)@ == old(self)@.drop_first(),
            old(self).wf() ==> final(self).wf(),
    {
        if self.timers.len() == 0 {
            None
        } else {
            let ghost before = self.timers@;
            let t = self.timers.pop_front().unwrap();
            proof {
                let after = self.timers@;
                assert(after =~= before.drop_first());
                if ascending(before) {
                    assert forall|i: int, j: int| 0 <= i <= j < after.len() implies (
                    #[trigger] after[i]).wakeup_duration <= (#[trigger] after[j]).wakeup_duration by {
                        assert(after[i] == before[i + 1] && after[j] == before[j + 1]);
                    }
                }
            }
            Some(t)
        }
    }
}

} // verus!
