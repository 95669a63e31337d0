//! The workers' result side, with the worker threads played by the test: a
//! task "runs" when the test takes it off its queue and sends the result.

use std::collections::VecDeque;
use std::sync::mpsc::{channel, Sender};

use parallel_worker::state::State;
use parallel_worker::workers::basic_worker::BasicWorker;
use parallel_worker::workers::cancelable_worker::CancelableWorker;
use parallel_worker::workers::methods::WorkerMethods;
use parallel_worker::workers::ordered_cancelable_worker::OrderedCancelableWorker;
use parallel_worker::workers::ordered_worker::OrderedWorker;
use parallel_worker::workers::thread::{
    keeps_running_after_send, on_taken, outcome_to_send, tag_result, tagged_outcome_to_send, ThreadStep,
};
use parallel_worker::internal::non_zero::NonZeroIndex;

struct Threads<T, R> {
    queue: VecDeque<T>,
    sender: Sender<R>,
    function: fn(T) -> R,
}

impl<T, R> Threads<T, R> {
    fn new(sender: Sender<R>, function: fn(T) -> R) -> Self {
        Threads { queue: VecDeque::new(), sender, function }
    }

    fn run(&mut self, k: usize) {
        for _ in 0..k {
            if let Some(task) = self.queue.pop_front() {
                self.sender.send((self.function)(task)).unwrap();
            }
        }
    }

    fn run_all_reversed(&mut self) {
        while let Some(task) = self.queue.pop_back() {
            self.sender.send((self.function)(task)).unwrap();
        }
    }

    fn run_all(&mut self) {
        let n = self.queue.len();
        self.run(n);
    }

    fn clear(&mut self) -> usize {
        let n = self.queue.len();
        self.queue.clear();
        n
    }
}

fn basic<R>(f: fn(u64) -> R) -> (BasicWorker<R>, Threads<u64, R>) {
    let (tx, rx) = channel();
    (BasicWorker::constructor(rx, 4), Threads::new(tx, f))
}

fn add_basic<R>(worker: &mut BasicWorker<R>, threads: &mut Threads<u64, R>, task: u64) {
    threads.queue.push_back(task);
    worker.tasks_added(1);
}

fn cancelable<R>(f: fn(u64) -> Option<R>) -> (CancelableWorker<R>, Threads<u64, Option<R>>) {
    let (tx, rx) = channel();
    (CancelableWorker::new(rx, 4), Threads::new(tx, f))
}

fn add_cancelable<R>(worker: &mut CancelableWorker<R>, threads: &mut Threads<u64, Option<R>>, task: u64) {
    threads.queue.push_back(task);
    worker.tasks_added(1);
}

fn sorted(mut v: Vec<u64>) -> Vec<u64> {
    v.sort_unstable();
    v
}

#[test]
fn basic_worker() {
    let (mut worker, mut threads) = basic(|n| n);

    add_basic(&mut worker, &mut threads, 1);
    add_basic(&mut worker, &mut threads, 2);
    add_basic(&mut worker, &mut threads, 3);
    threads.run_all();

    let s: u64 = worker.get_vec_blocking().iter().sum();
    assert_eq!(s, 6);

    for t in 0..10 {
        add_basic(&mut worker, &mut threads, t);
    }
    threads.run_all();

    assert_eq!(worker.get_vec_blocking().len(), 10);
    assert_eq!(worker.get_vec_blocking().len(), 0);
}

#[test]
fn basic_worker_counts_pending_tasks() {
    let (mut worker, mut threads) = basic(|n| n * 2);
    assert_eq!(worker.num_pending_tasks(), 0);
    assert_eq!(worker.num_worker_threads(), 4);
    for t in 0..5 {
        add_basic(&mut worker, &mut threads, t);
    }
    assert_eq!(worker.num_pending_tasks(), 5);
    threads.run(2);
    assert_eq!(worker.get(), Some(0));
    assert_eq!(worker.num_pending_tasks(), 4);
    let withdrawn = threads.clear();
    worker.tasks_withdrawn(withdrawn);
    assert_eq!(worker.num_pending_tasks(), 1);
    assert_eq!(worker.get_blocking(), Some(2));
    assert_eq!(worker.get_blocking(), None);
    assert_eq!(worker.get(), None);
    assert_eq!(worker.num_pending_tasks(), 0);
}

#[test]
fn basic_worker_get_does_not_wait() {
    let (mut worker, mut threads) = basic(|n| n);
    add_basic(&mut worker, &mut threads, 7);
    assert_eq!(worker.get(), None);
    assert_eq!(worker.num_pending_tasks(), 1);
    threads.run_all();
    assert_eq!(worker.get(), Some(7));
    assert_eq!(worker.num_pending_tasks(), 0);
}

#[test]
fn test_worker_base() {
    let (mut worker, mut threads) = cancelable(Some);
    assert_eq!(threads.queue.len(), 0);

    add_cancelable(&mut worker, &mut threads, 1);
    add_cancelable(&mut worker, &mut threads, 2);
    add_cancelable(&mut worker, &mut threads, 3);
    threads.run_all();

    let results = sorted(worker.get_vec_blocking());
    assert_eq!(results, vec![1, 2, 3]);
}

#[test]
fn test_get_if_ready() {
    let (mut worker, mut threads) = cancelable(Some);

    add_cancelable(&mut worker, &mut threads, 1);
    add_cancelable(&mut worker, &mut threads, 2);
    add_cancelable(&mut worker, &mut threads, 3);

    let mut results = Vec::new();
    while results.len() < 3 {
        match worker.get() {
            Some(result) => results.push(result),
            None => threads.run(1),
        }
    }
    assert_eq!(sorted(results), vec![1, 2, 3]);
}

#[test]
fn test_receive_all_results() {
    let (mut worker, mut threads) = cancelable(Some);

    add_cancelable(&mut worker, &mut threads, 1);
    add_cancelable(&mut worker, &mut threads, 2);
    add_cancelable(&mut worker, &mut threads, 3);

    let mut results: Vec<u64> = Vec::new();
    while results.len() < 3 {
        match worker.get_vec().as_slice() {
            [] => threads.run(1),
            a @ [..] => results.extend(a),
        }
    }
    assert_eq!(sorted(results), vec![1, 2, 3]);
}

#[test]
fn test_wait_for_result() {
    let (mut worker, mut threads) = cancelable(Some);

    add_cancelable(&mut worker, &mut threads, 1);
    add_cancelable(&mut worker, &mut threads, 2);
    add_cancelable(&mut worker, &mut threads, 3);
    threads.run_all();

    assert_eq!(sorted(worker.get_vec_blocking()), vec![1, 2, 3]);

    assert_eq!(worker.get_blocking(), None);

    add_cancelable(&mut worker, &mut threads, 4);
    add_cancelable(&mut worker, &mut threads, 5);
    threads.run_all();

    assert_eq!(sorted(worker.get_vec_blocking()), vec![4, 5]);
}

fn even(n: u64) -> Option<u64> {
    if n % 2 == 0 {
        Some(n)
    } else {
        None
    }
}

#[test]
fn test_wait_for_all_results() {
    let (mut worker, mut threads) = cancelable(even);

    add_cancelable(&mut worker, &mut threads, 1);
    add_cancelable(&mut worker, &mut threads, 2);
    add_cancelable(&mut worker, &mut threads, 3);
    threads.run_all();

    assert_eq!(worker.get_vec_blocking(), vec![2]);
    assert_eq!(sorted(worker.get_vec_blocking()), Vec::<u64>::new());

    add_cancelable(&mut worker, &mut threads, 4);
    add_cancelable(&mut worker, &mut threads, 5);
    add_cancelable(&mut worker, &mut threads, 6);
    threads.run_all();

    assert_eq!(sorted(worker.get_vec_blocking()), vec![4, 6]);
}

#[test]
fn test_receive_results_in_buffer_blocking() {
    let (mut worker, mut threads) = cancelable(Some);

    add_cancelable(&mut worker, &mut threads, 1);
    add_cancelable(&mut worker, &mut threads, 2);
    add_cancelable(&mut worker, &mut threads, 3);
    threads.run_all();

    let mut buffer = [0; 2];
    let mut results = vec![];

    while results.len() < 3 {
        let num_results = worker.get_buffered_blocking(&mut buffer);
        results.extend_from_slice(&buffer[..num_results]);
    }

    assert_eq!(sorted(results), vec![1, 2, 3]);
}

#[test]
fn test_receive_results_in_buffer() {
    let (mut worker, mut threads) = cancelable(Some);

    add_cancelable(&mut worker, &mut threads, 1);
    add_cancelable(&mut worker, &mut threads, 2);
    add_cancelable(&mut worker, &mut threads, 3);
    threads.run_all();

    let mut results = [0; 2];
    let num_results = worker.get_buffered_blocking(&mut results);

    assert!([1, 2, 3].contains(&results[0]) && [1, 2, 3].contains(&results[1]));
    assert_eq!(num_results, 2);

    let num_results = worker.get_buffered_blocking(&mut results);
    assert!([1, 2, 3].contains(&results[0]));
    assert_eq!(num_results, 1);
}

#[test]
fn get_buffered_leaves_the_rest_of_the_buffer() {
    let (mut worker, mut threads) = cancelable(Some);
    add_cancelable(&mut worker, &mut threads, 8);
    threads.run_all();
    let mut buffer = [0, 5, 6];
    assert_eq!(worker.get_buffered(&mut buffer), 1);
    assert_eq!(buffer, [8, 5, 6]);
    assert_eq!(worker.get_buffered(&mut buffer), 0);
    assert_eq!(buffer, [8, 5, 6]);
}

#[test]
fn test_optional_return() {
    let (mut worker, mut threads) = cancelable(even);

    add_cancelable(&mut worker, &mut threads, 1);
    add_cancelable(&mut worker, &mut threads, 2);
    add_cancelable(&mut worker, &mut threads, 3);
    threads.run_all();

    assert_eq!(worker.get_blocking(), Some(2));
    assert!(worker.get().is_none());

    assert_eq!(worker.get_vec_blocking(), Vec::<u64>::new());

    add_cancelable(&mut worker, &mut threads, 4);
    add_cancelable(&mut worker, &mut threads, 5);
    add_cancelable(&mut worker, &mut threads, 6);
    threads.run_all();

    assert_eq!(sorted(worker.get_vec_blocking()), vec![4, 6]);
}

#[test]
fn test_many_tasks() {
    let (mut worker, mut threads) = cancelable(Some);

    for i in 0..1000 {
        add_cancelable(&mut worker, &mut threads, i);
    }
    for i in 0..1000 {
        threads.queue.push_back(i);
    }
    worker.tasks_added(1000);
    for i in 0..1000 {
        add_cancelable(&mut worker, &mut threads, i);
    }
    threads.run_all();

    let results = worker.get_vec_blocking();
    assert_eq!(results.len(), 3000);
}

#[test]
fn test_get_iter() {
    let (mut worker, mut threads) = cancelable(Some);

    add_cancelable(&mut worker, &mut threads, 1);
    add_cancelable(&mut worker, &mut threads, 2);
    add_cancelable(&mut worker, &mut threads, 3);
    threads.run_all();

    let results: Vec<u64> = std::iter::from_fn(|| worker.get_blocking()).collect();
    assert_eq!(sorted(results), vec![1, 2, 3]);
}

/// Tasks that run until they are cancelled: the test sends `None` for each
/// running task once the flags are raised.
#[test]
fn test_cancel() {
    let (tx, rx) = channel::<Option<()>>();
    let mut worker: CancelableWorker<()> = CancelableWorker::new(rx, 4);
    let states: Vec<State> = (0..4).map(|i| worker.worker_state(i)).collect();

    worker.tasks_added(1);
    worker.tasks_added(1);
    worker.tasks_added(1);
    // three threads have taken the three tasks; the queue is empty
    for s in &states[..3] {
        s.set_running();
    }

    assert_eq!(worker.get(), None);
    worker.cancel_tasks(0);
    assert!(states.iter().all(|s| s.is_cancelled()));
    for s in &states[..3] {
        if s.is_cancelled() {
            tx.send(None).unwrap();
        }
    }
    assert_eq!(worker.get(), None);

    assert_eq!(worker.get_vec_blocking(), vec![]);

    assert_eq!(worker.get(), None);
    assert_eq!(worker.get_blocking(), None);
}

#[test]
fn test_cancel_count() {
    let (mut worker, mut threads) = cancelable(Some);

    for t in 0..50 {
        threads.queue.push_back(t);
    }
    worker.tasks_added(50);
    // four threads have started on a task each; cancelled, each sends `None`
    let running: Vec<u64> = (0..4).map(|_| threads.queue.pop_front().unwrap()).collect();

    let withdrawn = threads.clear();
    worker.cancel_tasks(withdrawn);
    for _ in &running {
        threads.sender.send(None).unwrap();
    }

    for t in 0..50 {
        threads.queue.push_back(t);
    }
    worker.tasks_added(50);
    threads.run_all();

    assert_eq!(worker.get_vec_blocking().len(), 50);

    for i in 0..100 {
        add_cancelable(&mut worker, &mut threads, i);
        add_cancelable(&mut worker, &mut threads, i);
        add_cancelable(&mut worker, &mut threads, i);
        let withdrawn = threads.clear();
        worker.cancel_tasks(withdrawn);
    }
    assert!(worker.get_blocking().is_none());

    for i in 0..100 {
        add_cancelable(&mut worker, &mut threads, i);
    }
    let withdrawn = threads.clear();
    worker.cancel_tasks(withdrawn);
    add_cancelable(&mut worker, &mut threads, 0);
    threads.run_all();

    assert_eq!(worker.get_blocking(), Some(0));
    assert!(worker.get_blocking().is_none());
}

type Tagged = Threads<(usize, u64), (usize, u64)>;

fn ordered() -> (OrderedWorker<u64>, Tagged) {
    let (tx, rx) = channel();
    (OrderedWorker::new(rx, 2), Threads::new(tx, |(i, t)| (i, t)))
}

fn add_ordered(worker: &mut OrderedWorker<u64>, threads: &mut Tagged, task: u64) {
    let tag = worker.tag_task();
    threads.queue.push_back((tag, task));
    worker.tasks_added(1);
}

fn add_ordered_tasks(worker: &mut OrderedWorker<u64>, threads: &mut Tagged, tasks: impl IntoIterator<Item = u64>) {
    let mut num = 0;
    for task in tasks {
        let tag = worker.tag_task();
        threads.queue.push_back((tag, task));
        num += 1;
    }
    worker.tasks_added(num);
}

fn cancel_ordered(worker: &mut OrderedWorker<u64>, threads: &mut Tagged) {
    let withdrawn = threads.clear();
    worker.cancel_tasks(withdrawn);
}

#[test]
fn test_ordered_worker() {
    let (mut worker, mut threads) = ordered();

    add_ordered(&mut worker, &mut threads, 1);
    add_ordered(&mut worker, &mut threads, 2);
    add_ordered(&mut worker, &mut threads, 3);
    threads.run_all_reversed();

    assert_eq!(worker.get_vec_blocking(), vec![1, 2, 3]);

    add_ordered_tasks(&mut worker, &mut threads, 0..10000);
    threads.run_all_reversed();

    assert_eq!(worker.get_vec_blocking(), (0..10000).collect::<Vec<_>>());
}

#[test]
fn test_ordered_worker_cancel() {
    let (mut worker, mut threads) = ordered();

    add_ordered(&mut worker, &mut threads, 100);
    add_ordered(&mut worker, &mut threads, 101);
    add_ordered(&mut worker, &mut threads, 102);

    // the two threads are busy with the first two tasks
    threads.run(2);
    cancel_ordered(&mut worker, &mut threads);

    assert_eq!(worker.get_vec_blocking(), vec![100, 101]);
    assert_eq!(worker.get_blocking(), None);

    add_ordered(&mut worker, &mut threads, 103);
    add_ordered(&mut worker, &mut threads, 104);
    add_ordered(&mut worker, &mut threads, 105);
    threads.run_all_reversed();

    assert_eq!(worker.get_vec_blocking(), vec![103, 104, 105]);
    assert_eq!(worker.get_blocking(), None);

    add_ordered(&mut worker, &mut threads, 106);
    threads.run_all();
    assert_eq!(worker.get_blocking(), Some(106));

    add_ordered_tasks(&mut worker, &mut threads, 100..1000);
    threads.run(2);
    cancel_ordered(&mut worker, &mut threads);

    assert_eq!(worker.get_vec_blocking(), vec![100, 101]);
    assert_eq!(worker.get_blocking(), None);

    add_ordered_tasks(&mut worker, &mut threads, 107..110);
    threads.run_all_reversed();

    assert_eq!(worker.get_vec_blocking(), (107..110).collect::<Vec<_>>());
}

#[test]
fn ordered_worker_get_holds_early_results() {
    let (mut worker, mut threads) = ordered();
    for t in [10, 11, 12] {
        add_ordered(&mut worker, &mut threads, t);
    }
    threads.run_all_reversed();
    // the results of the tasks tagged 2 and 1 come in first and are held
    assert_eq!(worker.get(), Some(10));
    assert_eq!(worker.num_pending_tasks(), 0);
    assert_eq!(worker.get(), Some(11));
    assert_eq!(worker.get(), Some(12));
    assert_eq!(worker.get(), None);
}

#[test]
fn ordered_worker_accept_and_take_held() {
    let (_tx, rx) = channel::<(usize, u64)>();
    let mut worker = OrderedWorker::new(rx, 1);
    assert_eq!(worker.tag_task(), 0);
    assert_eq!(worker.tag_task(), 1);
    assert_eq!(worker.accept(1, 11), None);
    assert_eq!(worker.take_held(), None);
    assert_eq!(worker.accept(0, 10), Some(10));
    assert_eq!(worker.take_held(), Some(11));
    assert_eq!(worker.take_held(), None);
    assert_eq!(worker.accept(usize::MAX, 0), None);
}

type TaggedOpt = Threads<(NonZeroIndex, u64), Option<(NonZeroIndex, Option<u64>)>>;

fn ordered_cancelable() -> (OrderedCancelableWorker<u64>, TaggedOpt) {
    let (tx, rx) = channel();
    (OrderedCancelableWorker::new(rx, 2), Threads::new(tx, |(i, t)| Some((i, even(t)))))
}

fn add_ordered_cancelable(worker: &mut OrderedCancelableWorker<u64>, threads: &mut TaggedOpt, task: u64) {
    let tag = worker.tag_task();
    threads.queue.push_back((tag, task));
    worker.tasks_added(1);
}

#[test]
fn ordered_cancelable_worker_keeps_task_order() {
    let (mut worker, mut threads) = ordered_cancelable();
    for t in [2, 4, 5, 6, 8] {
        add_ordered_cancelable(&mut worker, &mut threads, t);
    }
    threads.run_all_reversed();
    // the task with no result is passed over; the ones after it still come
    assert_eq!(worker.get_vec_blocking(), vec![2, 4, 6, 8]);
    assert_eq!(worker.get_blocking(), None);
    assert_eq!(worker.num_pending_tasks(), 0);
}

#[test]
fn ordered_cancelable_worker_passes_over_missing_results() {
    let (mut worker, mut threads) = ordered_cancelable();
    for t in [2, 3, 4] {
        add_ordered_cancelable(&mut worker, &mut threads, t);
    }
    threads.run_all();
    assert_eq!(worker.get_blocking(), Some(2));
    assert_eq!(worker.get_blocking(), Some(4));
    assert_eq!(worker.get_blocking(), None);
}

#[test]
fn ordered_cancelable_worker_get_does_not_wait() {
    let (mut worker, mut threads) = ordered_cancelable();
    for t in [2, 4] {
        add_ordered_cancelable(&mut worker, &mut threads, t);
    }
    // only the second task has finished: its result waits for the first
    let first = threads.queue.pop_front().unwrap();
    threads.run_all();
    assert_eq!(worker.get(), None);
    threads.queue.push_back(first);
    threads.run_all();
    assert_eq!(worker.get(), Some(2));
    assert_eq!(worker.get(), Some(4));
    assert_eq!(worker.get(), None);
}

#[test]
fn ordered_cancelable_worker_cancel_restarts_tags() {
    let (mut worker, mut threads) = ordered_cancelable();
    let states: Vec<State> = (0..2).map(|i| worker.worker_state(i)).collect();
    add_ordered_cancelable(&mut worker, &mut threads, 2);
    add_ordered_cancelable(&mut worker, &mut threads, 4);
    threads.run(1);
    assert_eq!(worker.get(), Some(2));
    let withdrawn = threads.clear();
    assert_eq!(withdrawn, 1);
    worker.cancel_tasks(withdrawn);
    assert!(states.iter().all(|s| s.is_cancelled()));
    assert_eq!(worker.num_pending_tasks(), 0);
    // the withdrawn task's tag is the next one
    assert_eq!(worker.next_task_tag().get(), 2);
    add_ordered_cancelable(&mut worker, &mut threads, 6);
    threads.run_all();
    assert_eq!(worker.get_blocking(), Some(6));
    assert_eq!(worker.get_blocking(), None);
}

#[test]
fn ordered_cancelable_worker_cancel_keeps_completed_results() {
    let (mut worker, mut threads) = ordered_cancelable();
    for t in [2, 4, 6, 8] {
        add_ordered_cancelable(&mut worker, &mut threads, t);
    }
    // the first two tasks have finished, the third is running, the fourth is queued
    threads.run(2);
    let running = threads.queue.pop_front().unwrap();
    let withdrawn = threads.clear();
    worker.cancel_tasks(withdrawn);
    // cancelled, the running task sends its tag with no result
    threads.sender.send(Some((running.0, None))).unwrap();
    add_ordered_cancelable(&mut worker, &mut threads, 10);
    threads.run_all();
    assert_eq!(worker.get_vec_blocking(), vec![2, 4, 10]);
    assert_eq!(worker.get_blocking(), None);
}

#[test]
fn test_long_running_worker() {
    let (mut worker, mut threads) = cancelable(Some);

    let mut results = Vec::new();
    for i in 0..100 {
        add_cancelable(&mut worker, &mut threads, i);
        add_cancelable(&mut worker, &mut threads, i);
        // the threads keep up with one task in two
        threads.run(1);

        if let Some(result) = worker.get() {
            results.push(result);
        }
    }

    threads.run_all();
    results.extend(std::iter::from_fn(|| worker.get_blocking()));

    assert_eq!(results.len(), 200);
}

#[test]
fn test_cancel_high_load() {
    let (mut worker, mut threads) = cancelable(Some);

    for _ in 0..100 {
        add_cancelable(&mut worker, &mut threads, 20);
        add_cancelable(&mut worker, &mut threads, 20);
        add_cancelable(&mut worker, &mut threads, 20);
        add_cancelable(&mut worker, &mut threads, 20);

        // the four threads have each taken a task
        let running: Vec<u64> = (0..4).map(|_| threads.queue.pop_front().unwrap()).collect();
        let withdrawn = threads.clear();
        worker.cancel_tasks(withdrawn);
        // cancelled, each running task sends `None`
        for _ in &running {
            threads.sender.send(None).unwrap();
        }

        assert!(worker.get_blocking().is_none());

        add_cancelable(&mut worker, &mut threads, 0);
        threads.run_all();

        assert_eq!(worker.get_blocking(), Some(0));
    }
}

#[test]
fn thread_runs_tasks_until_told_to_stop() {
    assert!(matches!(on_taken(Some(5u64)), ThreadStep::Run(5)));
    assert!(matches!(on_taken::<u64>(None), ThreadStep::Stop));
    assert!(keeps_running_after_send(true));
    assert!(!keeps_running_after_send(false));
}

#[test]
fn thread_discards_results_of_cancelled_tasks() {
    assert_eq!(outcome_to_send(Some(3u64), false), Some(3));
    assert_eq!(outcome_to_send(None::<u64>, false), None);
    assert_eq!(outcome_to_send(Some(3u64), true), None);
    assert_eq!(outcome_to_send(None::<u64>, true), None);
}

#[test]
fn cancelable_worker_collects_results_in_arrival_order() {
    let (mut worker, mut threads) = cancelable(even);
    for t in [6, 1, 4, 3, 2] {
        add_cancelable(&mut worker, &mut threads, t);
    }
    threads.run_all_reversed();
    assert_eq!(worker.get_vec_blocking(), vec![2, 4, 6]);
    assert_eq!(worker.num_pending_tasks(), 0);
}

#[test]
fn ordered_threads_send_the_tag_with_the_outcome() {
    assert_eq!(tag_result(4, 'x'), (4, 'x'));
    let tag = NonZeroIndex::new(3).unwrap();
    let sent = tagged_outcome_to_send(tag, Some(9u64), false).unwrap();
    assert_eq!((sent.0.get(), sent.1), (3, Some(9)));
    let sent = tagged_outcome_to_send(tag, Some(9u64), true).unwrap();
    assert_eq!((sent.0.get(), sent.1), (3, None));
    let sent = tagged_outcome_to_send(tag, None::<u64>, false).unwrap();
    assert_eq!((sent.0.get(), sent.1), (3, None));
}

#[test]
fn ordered_workers_wait_for_results_still_owed() {
    let (mut worker, mut threads) = ordered();
    add_ordered_tasks(&mut worker, &mut threads, [5, 6, 7]);
    threads.run_all_reversed();
    // all three results are owed: the blocking calls take every one
    assert_eq!(worker.get_blocking(), Some(5));
    assert_eq!(worker.get_blocking(), Some(6));
    assert_eq!(worker.get_blocking(), Some(7));
    assert_eq!(worker.num_pending_tasks(), 0);
    assert_eq!(worker.get_blocking(), None);
}
