# parallel_worker

Runs tasks on a pool of worker threads and hands their results back: as they
come, in the order the tasks were added, or with cancellation and optional
results.

`src/` is the verified library (Verus):

- `internal/`: `ResultBuffer` and `HeapBuffer`, which hold results that arrive
  out of order and hand them out by task position; `OrderedResult`, a result
  tagged with its position; `NonZeroIndex`, a position that is never zero.
- `state.rs`: `State`, the cancellation flag shared with a worker thread.
- `workers/`: the result side of each worker (`BasicWorker`,
  `CancelableWorker`, `OrderedWorker`, `OrderedCancelableWorker`): counting
  pending tasks, receiving results from the threads, tagging tasks and putting
  results back in task order, and the `WorkerMethods` trait that collects
  results into vectors and buffers; and, in `thread.rs`, what a worker thread
  decides: whether to run or stop, and what to send for a cancelled task.
- `primes.rs`: the benchmark task, counting primes with a sieve, and its
  parallel total on rayon.

The ordered workers prove that, over any run of calls of `get`, results leave
in the order of their tasks and none is lost or handed out twice
(`law_results_leave_in_task_order_over_calls`,
`law_outcomes_taken_in_task_order`, `law_tasks_results_leave_in_order`). The
cancelable and ordered workers keep their records in step (`tallies()`), so
that what `get_vec` and
`get_buffered` collect is tied to what came from the threads
(`law_collected_results_in_task_order`,
`law_collected_results_are_those_received`). The buffers prove the same of any
run of calls of `get` (`law_gets_hand_out_in_position_order`,
`law_gets_hand_out_in_order`, `law_position_counts_moves`), including for
results stored in any order (`law_pushed_in_any_order_leave_in_order`,
`law_inserted_in_any_order_leave_in_order`), and the basic worker's count of
pending tasks is the tasks queued less those taken and withdrawn over any run
of calls (`law_pending_counts_tasks`).

`app/` holds the threads: the shared task queue, the loops of the threads
that run the worker function, the user-facing workers built on the library's
result side, and the benchmark program.
