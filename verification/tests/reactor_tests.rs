use reactors::computation::Computation;
use reactors::computation::Measured;
use reactors::poll::Poll;
use reactors::poll::StaleWakeError;
use reactors::reactor::run;
use reactors::reactor::spawn;
use reactors::reactor::Reactor;
use reactors::sleep_task::launch;
use reactors::sleep_task::SleepTask;
use reactors::sleep_task::SECOND;
use reactors::timeout::Timeout;
use reactors::waker::Waker;

/// A parent that spawns one sleeper per entry of `naps` and completes, or a
/// sleeper.
enum Job {
    Parent(Vec<u64>),
    Sleeper(Timeout),
}

impl Measured for Job {}

impl Computation for Job {
    fn poll(&mut self, reactor: &mut Reactor<Job>, waker: Waker) -> Poll {
        match self {
            Job::Parent(naps) => {
                for nap in naps.iter() {
                    spawn(reactor, Job::Sleeper(Timeout::new(*nap)));
                }
                Poll::Ready
            }
            Job::Sleeper(timeout) => timeout.resume(reactor, waker),
        }
    }
}

#[test]
fn timeout_zero_completes_on_first_resumption() {
    let mut reactor: Reactor<Timeout> = Reactor::new();
    let id = reactor.do_spawn(Timeout::new(0));
    assert_eq!(id, Some(1));
    assert!(reactor.is_idle());
    assert_eq!(reactor.timer_count(), 0);
    assert_eq!(reactor.ready_count(), 0);
    assert_eq!(reactor.finished(), &vec![1]);
}

#[test]
fn timeout_zero_stays_out_of_the_timers_when_resumed_directly() {
    let mut reactor: Reactor<Timeout> = Reactor::new();
    let mut timeout = Timeout::new(0);
    assert_eq!(timeout.resume(&mut reactor, Waker::new(7)), Poll::Ready);
    assert_eq!(timeout, Timeout::NotStarted(0));
    assert_eq!(reactor.timer_count(), 0);
}

#[test]
fn timeout_arms_then_completes_on_any_wake() {
    let mut reactor: Reactor<Timeout> = Reactor::new();
    let mut timeout = Timeout::new(25);
    assert_eq!(timeout.resume(&mut reactor, Waker::new(7)), Poll::Pending);
    assert_eq!(timeout, Timeout::Armed);
    assert_eq!(reactor.timer_count(), 1);
    assert_eq!(reactor.idle_time(0), Some(25));
    // a second resumption completes although the timer has not fired
    assert_eq!(timeout.resume(&mut reactor, Waker::new(7)), Poll::Ready);
    assert_eq!(timeout, Timeout::Armed);
    assert_eq!(reactor.timer_count(), 1);
}

#[test]
fn tasks_resume_in_deadline_order() {
    let mut reactor: Reactor<Timeout> = Reactor::new();
    assert_eq!(reactor.do_spawn(Timeout::new(5)), Some(1));
    assert_eq!(reactor.do_spawn(Timeout::new(1)), Some(2));
    assert_eq!(reactor.do_spawn(Timeout::new(3)), Some(3));
    assert_eq!(reactor.run_until_idle(), Ok(()));
    assert_eq!(reactor.finished(), &vec![2, 3, 1]);
    assert_eq!(reactor.now(), 5);
}

#[test]
fn shorter_sibling_completes_first() {
    let report = run(Job::Parent(vec![50, 100])).unwrap();
    assert_eq!(report.spawned, 3);
    let at = |id: usize| report.finished.iter().position(|&f| f == id).unwrap();
    assert!(at(2) < at(3));
    assert_eq!(report.finished, vec![1, 2, 3]);
    assert_eq!(report.elapsed, 100);
}

#[test]
fn shorter_sibling_completes_first_when_spawned_last() {
    let report = run(Job::Parent(vec![100, 50])).unwrap();
    assert_eq!(report.finished, vec![1, 3, 2]);
}

#[test]
fn waking_twice_posts_two_signals_and_the_second_is_stale() {
    let mut reactor: Reactor<Timeout> = Reactor::new();
    assert_eq!(reactor.do_spawn(Timeout::new(10)), Some(1));
    let waker = Waker::new(1);
    waker.wake_by_ref(&mut reactor);
    assert_eq!(reactor.ready_count(), 1);
    waker.wake_by_ref(&mut reactor);
    assert_eq!(reactor.ready_count(), 2);
    assert!(reactor.is_pending(1));
    assert_eq!(reactor.run_ready(), Err(StaleWakeError { task_id: 1 }));
    assert_eq!(reactor.finished(), &vec![1]);
    assert!(!reactor.is_pending(1));
    assert_eq!(reactor.ready_count(), 0);
}

#[test]
fn timer_that_outlives_its_task_is_a_stale_wake() {
    let mut reactor: Reactor<Timeout> = Reactor::new();
    assert_eq!(reactor.do_spawn(Timeout::new(5)), Some(1));
    Waker::new(1).wake_by_ref(&mut reactor);
    assert_eq!(reactor.run_ready(), Ok(1));
    assert!(reactor.is_idle());
    assert_eq!(reactor.timer_count(), 1);
    assert_eq!(reactor.tick(5), Err(StaleWakeError { task_id: 1 }));
}

#[test]
fn parent_of_three_children_completes_four_tasks() {
    let report = run(SleepTask::new(3, 1, 2)).unwrap();
    assert_eq!(report.finished.len(), 4);
    assert_eq!(report.spawned, 4);
    assert_eq!(report.finished, vec![2, 1, 3, 4]);
    assert_eq!(report.elapsed, 5);
}

#[test]
fn immediate_computation_returns_without_sleeping() {
    let report = run(Timeout::new(0)).unwrap();
    assert_eq!(report.finished, vec![1]);
    assert_eq!(report.spawned, 1);
    assert_eq!(report.elapsed, 0);
}

#[test]
fn run_of_one_timeout_sleeps_exactly_its_duration() {
    let report = run(Timeout::new(40)).unwrap();
    assert_eq!(report.finished, vec![1]);
    assert_eq!(report.elapsed, 40);
}

#[test]
fn launch_completes_the_main_task_and_ten_sub_tasks() {
    let report = launch().unwrap();
    assert_eq!(report.spawned, 11);
    assert_eq!(report.finished.len(), 11);
    // the main task spawns its last sub-task after ten seconds and is done
    assert_eq!(report.finished[0], 1);
    assert_eq!(report.finished[1..], [2, 3, 4, 5, 6, 7, 8, 9, 10, 11]);
    assert_eq!(report.elapsed, 20 * SECOND);
}

#[test]
fn new_reactor_is_empty_and_ids_start_at_one() {
    let mut reactor: Reactor<Timeout> = Reactor::new();
    assert_eq!(reactor.now(), 0);
    assert!(reactor.is_idle());
    assert_eq!(reactor.timer_count(), 0);
    assert_eq!(reactor.ready_count(), 0);
    assert_eq!(reactor.spawned(), 0);
    assert_eq!(reactor.next_task_id(), Some(1));
    assert_eq!(reactor.next_task_id(), Some(2));
    assert_eq!(reactor.spawned(), 2);
}

#[test]
fn clock_never_runs_backwards() {
    let mut reactor: Reactor<Timeout> = Reactor::new();
    reactor.advance_clock(30);
    assert_eq!(reactor.now(), 30);
    reactor.advance_clock(10);
    assert_eq!(reactor.now(), 30);
    reactor.advance_clock(31);
    assert_eq!(reactor.now(), 31);
}

#[test]
fn deadline_is_clock_plus_duration() {
    let mut reactor: Reactor<Timeout> = Reactor::new();
    reactor.advance_clock(100);
    reactor.add_timer(25, Waker::new(1));
    assert_eq!(reactor.idle_time(0), Some(125));
    assert_eq!(reactor.idle_time(100), Some(25));
    assert_eq!(reactor.idle_time(124), Some(1));
    assert_eq!(reactor.idle_time(125), None);
    assert_eq!(reactor.idle_time(200), None);
}

#[test]
fn deadline_saturates_at_the_end_of_the_time_line() {
    let mut reactor: Reactor<Timeout> = Reactor::new();
    reactor.advance_clock(u64::MAX - 1);
    reactor.add_timer(5, Waker::new(1));
    assert_eq!(reactor.idle_time(0), Some(u64::MAX));
}

#[test]
fn idle_time_is_none_while_a_signal_is_queued() {
    let mut reactor: Reactor<Timeout> = Reactor::new();
    reactor.add_timer(25, Waker::new(1));
    assert_eq!(reactor.idle_time(0), Some(25));
    reactor.wake(Waker::new(1));
    assert_eq!(reactor.idle_time(0), None);
}

#[test]
fn idle_time_is_none_without_timers() {
    let reactor: Reactor<Timeout> = Reactor::new();
    assert_eq!(reactor.idle_time(0), None);
}

#[test]
fn fire_expired_fires_what_is_due_and_nothing_else() {
    let mut reactor: Reactor<Timeout> = Reactor::new();
    reactor.add_timer(5, Waker::new(1));
    reactor.add_timer(1, Waker::new(2));
    reactor.add_timer(3, Waker::new(3));
    assert_eq!(reactor.fire_expired(0), 0);
    assert_eq!(reactor.fire_expired(3), 2);
    assert_eq!(reactor.timer_count(), 1);
    assert_eq!(reactor.ready_count(), 2);
    // firing resumes nobody: the signals are stale, ids 2 and 3 in this order
    assert_eq!(reactor.run_next(), Err(StaleWakeError { task_id: 2 }));
    assert_eq!(reactor.run_next(), Err(StaleWakeError { task_id: 3 }));
    assert_eq!(reactor.run_next(), Ok(None));
    assert_eq!(reactor.fire_expired(5), 1);
    assert_eq!(reactor.run_next(), Err(StaleWakeError { task_id: 1 }));
}

#[test]
fn timers_fired_in_a_tick_are_delivered_in_the_same_tick() {
    let mut reactor: Reactor<Timeout> = Reactor::new();
    assert_eq!(reactor.do_spawn(Timeout::new(4)), Some(1));
    assert_eq!(reactor.tick(3), Ok(false));
    assert_eq!(reactor.tick(4), Ok(true));
    assert_eq!(reactor.finished(), &vec![1]);
    assert_eq!(reactor.now(), 4);
}

/// Wakes itself as often as `left` says, then completes.
struct Yielder {
    left: u32,
}

impl Measured for Yielder {}

impl Computation for Yielder {
    fn poll(&mut self, reactor: &mut Reactor<Yielder>, waker: Waker) -> Poll {
        if self.left == 0 {
            Poll::Ready
        } else {
            self.left -= 1;
            waker.wake_by_ref(reactor);
            Poll::Pending
        }
    }
}

#[test]
fn signals_posted_during_a_drain_wait_for_the_next_one() {
    let mut reactor: Reactor<Yielder> = Reactor::new();
    assert_eq!(reactor.do_spawn(Yielder { left: 3 }), Some(1));
    assert_eq!(reactor.ready_count(), 1);
    // one signal was queued at the start, so one is delivered
    assert_eq!(reactor.run_ready(), Ok(1));
    assert_eq!(reactor.ready_count(), 1);
    assert!(reactor.is_pending(1));
    assert_eq!(reactor.run_ready(), Ok(1));
    assert_eq!(reactor.run_ready(), Ok(1));
    assert_eq!(reactor.ready_count(), 0);
    assert!(reactor.is_idle());
    assert_eq!(reactor.run_ready(), Ok(0));
}

#[test]
fn run_next_reports_what_the_task_did() {
    let mut reactor: Reactor<Yielder> = Reactor::new();
    assert_eq!(reactor.do_spawn(Yielder { left: 2 }), Some(1));
    assert_eq!(reactor.run_next(), Ok(Some(Poll::Pending)));
    assert_eq!(reactor.run_next(), Ok(Some(Poll::Ready)));
    assert_eq!(reactor.run_next(), Ok(None));
}

#[test]
fn take_task_and_settle_move_a_task_out_and_back() {
    let mut reactor: Reactor<Timeout> = Reactor::new();
    assert_eq!(reactor.do_spawn(Timeout::new(9)), Some(1));
    assert_eq!(reactor.take_task(2).err(), Some(StaleWakeError { task_id: 2 }));
    let task = reactor.take_task(1).ok().unwrap();
    assert_eq!(task.task, Timeout::Armed);
    assert!(!reactor.is_pending(1));
    assert_eq!(reactor.take_task(1).err(), Some(StaleWakeError { task_id: 1 }));
    reactor.settle(1, task, Poll::Pending);
    assert!(reactor.is_pending(1));
    let task = reactor.take_task(1).ok().unwrap();
    reactor.settle(1, task, Poll::Ready);
    assert!(!reactor.is_pending(1));
    assert_eq!(reactor.finished(), &vec![1]);
}

#[test]
fn equal_deadlines_fire_in_registration_order() {
    let mut reactor: Reactor<Timeout> = Reactor::new();
    assert_eq!(reactor.do_spawn(Timeout::new(7)), Some(1));
    assert_eq!(reactor.do_spawn(Timeout::new(7)), Some(2));
    assert_eq!(reactor.do_spawn(Timeout::new(7)), Some(3));
    assert_eq!(reactor.run_until_idle(), Ok(()));
    assert_eq!(reactor.finished(), &vec![1, 2, 3]);
}

#[test]
fn sub_task_only_sleeps() {
    let report = run(SleepTask::sub_task(12)).unwrap();
    assert_eq!(report.finished, vec![1]);
    assert_eq!(report.elapsed, 12);
}

#[test]
fn sleep_task_without_pauses_finishes_at_once() {
    let report = run(SleepTask::new(3, 0, 0)).unwrap();
    assert_eq!(report.finished, vec![2, 3, 4, 1]);
    assert_eq!(report.elapsed, 0);
}

#[test]
fn sleep_task_without_rounds_does_nothing() {
    let report = run(SleepTask::new(0, 5, 5)).unwrap();
    assert_eq!(report.finished, vec![1]);
    assert_eq!(report.elapsed, 0);
}

#[test]
fn run_of_many_timeouts_terminates_with_all_of_them_completed() {
    let mut reactor: Reactor<Timeout> = Reactor::new();
    let durations: Vec<u64> = (0..60).map(|i| (i * 37) % 11).collect();
    for duration in durations.iter() {
        assert!(reactor.do_spawn(Timeout::new(*duration)).is_some());
    }
    assert_eq!(reactor.run_until_idle(), Ok(()));
    assert!(reactor.is_idle());
    assert_eq!(reactor.timer_count(), 0);
    assert_eq!(reactor.ready_count(), 0);
    assert_eq!(reactor.now(), 10);
    let mut finished = reactor.finished().clone();
    // the timeouts of zero completed when they were spawned, the others by deadline
    let by_deadline: Vec<u64> = finished.iter().map(|id| durations[*id - 1]).collect();
    let mut sorted = by_deadline.clone();
    sorted.sort();
    assert_eq!(by_deadline, sorted);
    finished.sort();
    assert_eq!(finished, (1..=60).collect::<Vec<usize>>());
}

#[test]
fn run_on_a_reactor_in_use_continues_its_ids_and_its_clock() {
    let mut reactor: Reactor<Timeout> = Reactor::new();
    assert_eq!(reactor.run(Timeout::new(3)), Ok(()));
    assert_eq!(reactor.now(), 3);
    assert_eq!(reactor.run(Timeout::new(4)), Ok(()));
    assert_eq!(reactor.now(), 7);
    assert_eq!(reactor.finished(), &vec![1, 2]);
    assert_eq!(reactor.spawned(), 2);
    let report = reactor.into_report();
    assert_eq!((report.spawned, report.elapsed), (2, 7));
    assert_eq!(report.finished, vec![1, 2]);
}

#[test]
fn run_until_idle_with_nothing_pending_changes_nothing() {
    let mut reactor: Reactor<Timeout> = Reactor::new();
    reactor.advance_clock(9);
    assert_eq!(reactor.run_until_idle(), Ok(()));
    assert_eq!(reactor.now(), 9);
    assert_eq!(reactor.finished(), &Vec::<usize>::new());
}

#[test]
fn run_gives_up_at_a_stale_wake() {
    let mut reactor: Reactor<Timeout> = Reactor::new();
    reactor.add_timer(2, Waker::new(42));
    assert_eq!(reactor.run(Timeout::new(5)), Err(StaleWakeError { task_id: 42 }));
    assert!(reactor.is_pending(1));
    assert_eq!(reactor.now(), 2);
}

#[test]
fn step_tells_what_a_resumption_has_to_do() {
    let mut timeout = Timeout::new(3);
    assert_eq!(timeout.step(), Some(3));
    assert_eq!(timeout, Timeout::Armed);
    assert_eq!(timeout.step(), None);
    assert_eq!(timeout, Timeout::Armed);
    let mut zero = Timeout::new(0);
    assert_eq!(zero.step(), None);
    assert_eq!(zero, Timeout::NotStarted(0));
}

#[test]
fn sleep_task_constructors_set_the_first_sleep() {
    let main = SleepTask::new(3, 1, 2);
    assert_eq!((main.rounds, main.pause, main.sub_pause), (3, 1, 2));
    assert_eq!(main.timeout, Timeout::NotStarted(1));
    assert_eq!(SleepTask::new(0, 1, 2).timeout, Timeout::NotStarted(0));
    let sub = SleepTask::sub_task(7);
    assert_eq!((sub.rounds, sub.timeout), (0, Timeout::NotStarted(7)));
    assert_eq!(reactors::sleep_task::sleep_task(), SleepTask::new(10, SECOND, 10 * SECOND));
    assert_eq!(reactors::sleep_task::sleep_sub_task(), SleepTask::sub_task(10 * SECOND));
}

#[test]
fn sleep_task_resumption_spawns_after_each_sleep() {
    let mut reactor: Reactor<SleepTask> = Reactor::new();
    assert_eq!(reactor.do_spawn(SleepTask::new(2, 1, 5)), Some(1));
    assert_eq!(reactor.spawned(), 1);
    assert_eq!(reactor.tick(1), Ok(false));
    // the sleep was over: sub-task 2 was spawned and the next sleep begun
    assert_eq!(reactor.spawned(), 2);
    assert!(reactor.is_pending(1) && reactor.is_pending(2));
    assert_eq!(reactor.timer_count(), 2);
    assert_eq!(reactor.tick(2), Ok(false));
    // after the last spawn the task is done at once
    assert_eq!(reactor.spawned(), 3);
    assert_eq!(reactor.finished(), &vec![1]);
    assert_eq!(reactor.tick(6), Ok(false));
    assert_eq!(reactor.tick(7), Ok(true));
    assert_eq!(reactor.finished(), &vec![1, 2, 3]);
}
