# async_executors_ext

Executor building blocks with their logic verified by Verus.

- `src/bitset.rs`: a fixed set of 128 flags with a counter of set flags.
- `src/affinity.rs`: CPU sets for `sched_setaffinity` (through `nix`), and
  the table of cores handed out to threads, with `try_bind_to_cpu`,
  `try_bind_available_cpu` and `try_unbind_from_cpu`.
- `src/nonblocking.rs`: the `NonblockingFuture` interface.
- `src/channel.rs`, `src/wake_set.rs`: the crossbeam channel and the dashmap
  set of woken task ids that the pool uses, and the task waker.
- `src/pool.rs`: the non-blocking thread pool: tasks, the executor step
  (taking in tasks, reusing free slots, polling woken and all tasks), the
  controllers and round-robin spawning.
- `app/`: threads, the tokio and glommio static runtimes, the process-wide
  core table and the pool's worker threads.
