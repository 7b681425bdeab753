use coop_executor::{
    Computation, Context, Executor, Hello, Poll, ReadyQueue, StateHello, SubmitError,
    DEFAULT_CAPACITY,
};

fn lines(out: &[String]) -> Vec<&str> {
    out.iter().map(|s| s.as_str()).collect()
}

#[test]
fn single_demo_prints_hello_then_world() {
    let mut ex: Executor<Hello> = Executor::new();
    assert_eq!(ex.spawn(Hello::new()), Ok(0));
    let rep = ex.run();
    assert_eq!(lines(&rep.output), vec!["hello", "world"]);
    assert_eq!(rep.completed, vec![0]);
    assert_eq!(rep.resumed, vec![0, 0, 0]);
    assert_eq!(rep.requeued, vec![0, 0]);
    assert_eq!(ex.pending_count(), 0);
    assert!(!ex.is_live(0));
}

#[test]
fn two_demos_each_greet_before_farewell() {
    let mut ex: Executor<Hello> = Executor::new();
    assert_eq!(ex.spawn(Hello::new()), Ok(0));
    assert_eq!(ex.spawn(Hello::new()), Ok(1));
    let rep = ex.run();
    assert_eq!(lines(&rep.output), vec!["hello", "hello", "world", "world"]);
    assert_eq!(rep.completed, vec![0, 1]);
    assert!(!ex.is_live(0));
    assert!(!ex.is_live(1));
}

#[test]
fn resumptions_follow_queue_arrival_order() {
    let mut ex: Executor<Hello> = Executor::new();
    ex.spawn(Hello::new()).unwrap();
    ex.spawn(Hello::new()).unwrap();
    let rep = ex.run();
    assert_eq!(rep.dequeued, vec![0, 1, 0, 1, 0, 1]);
    assert_eq!(rep.resumed, vec![0, 1, 0, 1, 0, 1]);
    assert_eq!(rep.requeued, vec![0, 1, 0, 1]);
}

#[test]
fn run_does_not_stop_at_first_completion() {
    let mut ex: Executor<Hello> = Executor::new();
    for i in 0..5usize {
        assert_eq!(ex.spawn(Hello::new()), Ok(i));
    }
    let rep = ex.run();
    assert_eq!(rep.completed, vec![0, 1, 2, 3, 4]);
    assert_eq!(rep.output.len(), 10);
    assert_eq!(rep.dequeued.len(), 15);
    assert_eq!(ex.pending_count(), 0);
    for i in 0..5usize {
        assert!(!ex.is_live(i));
    }
}

#[test]
fn full_queue_refuses_spawn_and_keeps_state() {
    let mut ex: Executor<Hello> = Executor::with_capacity(2);
    assert_eq!(ex.spawn(Hello::new()), Ok(0));
    assert_eq!(ex.spawn(Hello::new()), Ok(1));
    assert_eq!(ex.spawn(Hello::new()), Err(SubmitError::Full));
    assert_eq!(ex.task_count(), 2);
    assert_eq!(ex.pending_count(), 2);
    let rep = ex.run();
    assert_eq!(rep.completed, vec![0, 1]);
    assert_eq!(ex.spawn(Hello::new()), Ok(2));
    assert_eq!(ex.run().completed, vec![2]);
}

#[test]
fn capacity_one_still_finishes_a_demo() {
    let mut ex: Executor<Hello> = Executor::with_capacity(1);
    ex.spawn(Hello::new()).unwrap();
    let rep = ex.run();
    assert_eq!(lines(&rep.output), vec!["hello", "world"]);
    assert_eq!(rep.completed, vec![0]);
}

#[test]
fn spawn_after_shutdown_is_refused() {
    let mut ex: Executor<Hello> = Executor::new();
    ex.spawn(Hello::new()).unwrap();
    ex.shutdown();
    assert!(ex.is_closed());
    assert_eq!(ex.pending_count(), 0);
    assert_eq!(ex.spawn(Hello::new()), Err(SubmitError::Closed));
    let rep = ex.run();
    assert!(rep.dequeued.is_empty());
    assert!(rep.output.is_empty());
    assert!(ex.is_live(0));
}

#[test]
fn run_on_empty_executor_returns_at_once() {
    let mut ex: Executor<Hello> = Executor::new();
    let rep = ex.run();
    assert!(rep.dequeued.is_empty());
    assert!(rep.resumed.is_empty());
    assert!(rep.requeued.is_empty());
    assert!(rep.completed.is_empty());
    assert!(rep.output.is_empty());
    assert_eq!(DEFAULT_CAPACITY, 1024);
}

#[test]
fn queue_is_first_in_first_out() {
    let mut q = ReadyQueue::new(3);
    assert_eq!(q.submit(7), Ok(()));
    assert_eq!(q.submit(3), Ok(()));
    assert_eq!(q.submit(7), Ok(()));
    assert_eq!(q.submit(9), Err(SubmitError::Full));
    assert_eq!(q.len(), 3);
    assert_eq!(q.next(), Some(7));
    assert_eq!(q.next(), Some(3));
    assert_eq!(q.next(), Some(7));
    assert_eq!(q.next(), None);
}

#[test]
fn closed_queue_refuses_submissions() {
    let mut q = ReadyQueue::new(4);
    q.submit(1).unwrap();
    q.close();
    assert!(q.is_closed());
    assert_eq!(q.len(), 0);
    assert_eq!(q.submit(2), Err(SubmitError::Closed));
    assert_eq!(q.next(), None);
}

#[test]
fn wake_is_refused_beyond_reservation() {
    let mut cx = Context::new(4, 2);
    assert_eq!(cx.task(), 4);
    assert_eq!(cx.wake(), Ok(()));
    assert_eq!(cx.wake(), Ok(()));
    assert_eq!(cx.wake(), Err(SubmitError::Full));
    assert_eq!(cx.wakes(), 2);
    assert_eq!(cx.room(), 2);
}

#[test]
fn demo_steps_through_its_states() {
    let mut h = Hello::new();
    assert_eq!(h.state, StateHello::Hello);
    let mut cx = Context::new(0, 1);
    assert_eq!(h.poll(&mut cx), Poll::Pending);
    assert_eq!(h.state, StateHello::World);
    assert_eq!(cx.wakes(), 1);
    assert_eq!(lines(&cx.take_lines()), vec!["hello"]);

    let mut cx = Context::new(0, 1);
    assert_eq!(h.resume(&mut cx), Poll::Pending);
    assert_eq!(h.state, StateHello::End);
    assert_eq!(lines(&cx.take_lines()), vec!["world"]);

    let mut cx = Context::new(0, 1);
    assert_eq!(h.poll(&mut cx), Poll::Ready);
    assert_eq!(h.state, StateHello::End);
    assert_eq!(cx.wakes(), 0);
    assert!(cx.take_lines().is_empty());
}

#[test]
fn emitted_lines_are_handed_over_once() {
    let mut cx = Context::new(0, 1);
    cx.emit("a");
    cx.emit("b");
    assert_eq!(lines(&cx.take_lines()), vec!["a", "b"]);
    assert!(cx.take_lines().is_empty());
}
