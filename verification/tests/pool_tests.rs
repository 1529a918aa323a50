use async_executors_ext::nonblocking::{NbPoll, NonblockingFuture, NonblockingFutureExt};
use async_executors_ext::pool::{
    after_send, slot_tag, woken_slot, ManagedExecutor, NonblockingError, NonblockingTask,
    NonblockingTp, NonblockingTpBuilder, SpawnStep,
};
use async_executors_ext::wake_set::TaskSetWaker;
use std::sync::atomic::{AtomicUsize, Ordering};
use std::sync::Arc;

/// Finishes after `left` more polls; counts every poll in `polls`.
struct Countdown {
    left: usize,
    polls: Arc<AtomicUsize>,
}

impl NonblockingFuture for Countdown {
    type Output = usize;
    fn poll_nb(&mut self) -> NbPoll<usize> {
        self.polls.fetch_add(1, Ordering::SeqCst);
        if self.left == 0 {
            NbPoll::Ready(7)
        } else {
            self.left -= 1;
            NbPoll::Pending
        }
    }
}

fn countdown(left: usize) -> (Countdown, Arc<AtomicUsize>) {
    let polls = Arc::new(AtomicUsize::new(0));
    (Countdown { left, polls: polls.clone() }, polls)
}

fn pool_of(n: i32) -> (NonblockingTp<Countdown>, Vec<ManagedExecutor<Countdown>>) {
    NonblockingTpBuilder::new(n).build_executors::<Countdown>()
}

#[test]
fn poll_ready_and_pending() {
    assert!(NbPoll::Ready(1).is_ready());
    assert!(!NbPoll::<u8>::Pending.is_ready());
}

#[test]
fn poll_through_box_and_reference() {
    let (c, polls) = countdown(1);
    let mut boxed: Box<Countdown> = Box::new(c);
    assert!(!boxed.poll_nb_unpin().is_ready());
    {
        let mut r = &mut *boxed;
        assert!(matches!(r.poll_nb(), NbPoll::Ready(7)));
    }
    assert_eq!(polls.load(Ordering::SeqCst), 2);
}

#[test]
fn builder_defaults_and_name() {
    let b = NonblockingTpBuilder::new(3);
    assert_eq!(b.thread_count(), 3);
    assert_eq!(b.thread_name(), "NonblockingTp");
    let b = b.name("worker".to_string());
    assert_eq!(b.thread_name(), "worker");
    assert_eq!(b.thread_count(), 3);
}

#[test]
fn build_makes_one_executor_per_thread() {
    let (tp, execs) = pool_of(3);
    assert_eq!(tp.executor_count(), 3);
    assert_eq!(execs.len(), 3);
    assert!(execs.iter().all(|e| e.binds_cpu()));
    let (tp, execs) = pool_of(-2);
    assert_eq!(tp.executor_count(), 0);
    assert!(execs.is_empty());
}

#[test]
fn executor_takes_in_task_on_tenth_step() {
    let (tp, mut execs) = pool_of(1);
    let (c, polls) = countdown(100);
    assert!(tp.spawn_custom_task_obj(NonblockingTask::new(c)).is_ok());
    let e = &mut execs[0];
    for _ in 0..9 {
        assert!(matches!(e.poll_nb(), NbPoll::Pending));
    }
    assert_eq!(polls.load(Ordering::SeqCst), 0);
    assert!(matches!(e.poll_nb(), NbPoll::Pending));
    assert_eq!(polls.load(Ordering::SeqCst), 1);
    assert!(matches!(e.poll_nb(), NbPoll::Pending));
    assert_eq!(polls.load(Ordering::SeqCst), 2);
}

#[test]
fn finished_task_leaves_its_slot() {
    let (tp, mut execs) = pool_of(1);
    let (c1, p1) = countdown(0);
    let (c2, p2) = countdown(0);
    tp.spawn_custom_task_obj(NonblockingTask::new(c1)).ok().unwrap();
    tp.spawn_custom_task_obj(NonblockingTask::new(c2)).ok().unwrap();
    let e = &mut execs[0];
    for _ in 0..10 {
        e.poll_nb();
    }
    assert_eq!(p1.load(Ordering::SeqCst), 1);
    for _ in 0..10 {
        e.poll_nb();
    }
    // The finished first task was not polled again; the second reused its slot.
    assert_eq!(p1.load(Ordering::SeqCst), 1);
    assert_eq!(p2.load(Ordering::SeqCst), 1);
    assert_eq!(e.find_hole(), Some(0));
}

#[test]
fn woken_task_is_polled_twice_in_a_step() {
    let (tp, mut execs) = pool_of(1);
    let (c, polls) = countdown(1000);
    let mut task = NonblockingTask::new(c);
    let waker = task.waker_handle();
    let again = task.waker_handle();
    assert!(Arc::ptr_eq(&waker, &again));
    tp.spawn_custom_task_obj(task).ok().unwrap();
    let e = &mut execs[0];
    for _ in 0..10 {
        e.poll_nb();
    }
    assert_eq!(polls.load(Ordering::SeqCst), 1);
    waker.wake();
    e.poll_nb();
    // Once for the wake-up, once in the pass over every task.
    assert_eq!(polls.load(Ordering::SeqCst), 3);
    e.poll_nb();
    assert_eq!(polls.load(Ordering::SeqCst), 4);
}

#[test]
fn unregistered_waker_does_nothing() {
    let w = TaskSetWaker::new();
    w.wake();
}

#[test]
fn shutdown_refuses_and_returns_task() {
    let (tp, mut execs) = pool_of(2);
    tp.shutdown_all();
    let (c, _polls) = countdown(0);
    match tp.spawn_custom_task_obj(NonblockingTask::new(c)) {
        Err(e) => {
            assert_eq!(e.kind_name(), "ExecutorNotRunning");
            let t = e.into_inner();
            drop(t);
        }
        Ok(()) => panic!("a stopped pool took a task"),
    }
    assert!(matches!(execs[0].poll_nb(), NbPoll::Ready(())));
    assert!(matches!(execs[1].poll_nb(), NbPoll::Ready(())));
}

#[test]
fn released_executor_stops() {
    let (tp, mut execs) = pool_of(1);
    execs[0].release();
    assert!(matches!(execs[0].poll_nb(), NbPoll::Ready(())));
    let (c, _) = countdown(0);
    assert!(matches!(
        tp.spawn_custom_task_obj(NonblockingTask::new(c)),
        Err(NonblockingError::ExecutorNotRunning(_))
    ));
}

#[test]
fn dropped_executor_refuses_task() {
    let (tp, execs) = pool_of(1);
    drop(execs);
    let (c, polls) = countdown(0);
    match tp.spawn_custom_task_obj(NonblockingTask::new(c)) {
        Err(e) => {
            assert_eq!(e.kind_name(), "ExecutorDropped");
            let mut t = e.into_inner();
            assert!(t.poll_nb().is_ready());
            assert_eq!(polls.load(Ordering::SeqCst), 1);
        }
        Ok(()) => panic!("a task went to a dropped executor"),
    }
}

#[test]
fn tasks_go_round_robin() {
    let (tp, mut execs) = pool_of(2);
    let (c1, p1) = countdown(100);
    let (c2, p2) = countdown(100);
    tp.spawn_custom_task_obj(NonblockingTask::new(c1)).ok().unwrap();
    tp.spawn_custom_task_obj(NonblockingTask::new(c2)).ok().unwrap();
    for _ in 0..10 {
        execs[0].poll_nb();
    }
    assert_eq!(p1.load(Ordering::SeqCst), 1);
    assert_eq!(p2.load(Ordering::SeqCst), 0);
    for _ in 0..10 {
        execs[1].poll_nb();
    }
    assert_eq!(p2.load(Ordering::SeqCst), 1);
}

#[test]
fn slot_numbers() {
    assert_eq!(slot_tag(5), 5);
    assert_eq!(woken_slot(2, 3), Some(2));
    assert_eq!(woken_slot(3, 3), None);
    assert_eq!(woken_slot(-1, 3), None);
}

struct OneShot(Arc<AtomicUsize>);

impl NonblockingFuture for OneShot {
    type Output = ();
    fn poll_nb(&mut self) -> NbPoll<()> {
        self.0.fetch_add(1, Ordering::SeqCst);
        NbPoll::Ready(())
    }
}

type DynFuture = Box<dyn NonblockingFuture<Output = ()> + Send>;

#[test]
fn boxed_trait_object_task_runs() {
    let (tp, mut execs) = NonblockingTpBuilder::new(1).build_executors::<DynFuture>();
    let polls = Arc::new(AtomicUsize::new(0));
    let future: DynFuture = Box::new(OneShot(polls.clone()));
    tp.spawn_custom_task_obj(NonblockingTask::new_boxed(future)).ok().unwrap();
    for _ in 0..20 {
        execs[0].poll_nb();
    }
    assert_eq!(polls.load(Ordering::SeqCst), 1);
}

#[test]
fn after_send_stops_retries_and_gives_up() {
    let (c, _) = countdown(0);
    assert!(matches!(after_send::<Countdown>(0, 2, Ok(())), SpawnStep::Done));
    let refusal = NonblockingError::ExecutorNotRunning(NonblockingTask::new(c));
    assert!(matches!(after_send(0, 2, Err(refusal)), SpawnStep::Retry(_)));
    let (c, _) = countdown(0);
    let refusal = NonblockingError::ExecutorDropped(NonblockingTask::new(c));
    match after_send(1, 2, Err(refusal)) {
        SpawnStep::GiveUp(e) => assert_eq!(e.kind_name(), "ExecutorDropped"),
        _ => panic!("the last refusal was not returned"),
    }
}

#[test]
fn poll_slot_keeps_pending_and_drops_ready() {
    let (tp, mut execs) = pool_of(1);
    let (c1, p1) = countdown(1);
    tp.spawn_custom_task_obj(NonblockingTask::new(c1)).ok().unwrap();
    let e = &mut execs[0];
    for _ in 0..10 {
        e.poll_nb();
    }
    // Polled once (Pending); the next poll of the slot answers Ready.
    assert_eq!(p1.load(Ordering::SeqCst), 1);
    assert_eq!(e.find_hole(), None);
    assert!(matches!(e.poll_slot(0), Some(NbPoll::Ready(7))));
    assert_eq!(e.find_hole(), Some(0));
    assert!(e.poll_slot(0).is_none());
    assert_eq!(p1.load(Ordering::SeqCst), 2);
}

#[test]
fn poll_slot_pending_task_stays() {
    let (tp, mut execs) = pool_of(1);
    let (c, polls) = countdown(100);
    tp.spawn_custom_task_obj(NonblockingTask::new(c)).ok().unwrap();
    let e = &mut execs[0];
    for _ in 0..10 {
        e.poll_nb();
    }
    assert!(matches!(e.poll_slot(0), Some(NbPoll::Pending)));
    assert_eq!(e.find_hole(), None);
    assert_eq!(polls.load(Ordering::SeqCst), 2);
}

#[test]
fn step_follows_the_flag_value() {
    let (_tp, mut execs) = pool_of(1);
    let e = &mut execs[0];
    assert!(matches!(e.step(false), NbPoll::Ready(())));
    assert!(matches!(e.step(true), NbPoll::Pending));
    e.release();
    // A running value read still steps, whatever the flag holds now.
    assert!(matches!(e.step(true), NbPoll::Pending));
    assert!(matches!(e.poll_nb(), NbPoll::Ready(())));
}
