# corun

The decision logic of a small executor for futures and of the socket
readiness tracking it relies on, with its behaviour stated in contracts and
proved.

- `src/executor.rs`: tasks kept in a `unicycle` pin slab per priority level,
  their wake-up pages, and the run loop as a state machine (`run_step`),
  with the laws that a notified, added or woken task is polled by the end of
  the next sweep, that a sweep polls exactly the drained tasks, once each,
  by priority, then page, then slot, and that a task not woken again is not
  polled again, with tasks added, woken and finished between the steps.
- `src/waker_page.rs`, `src/bits.rs`: notified/dropped bitmaps of 64 tasks,
  and the ascending listing of a word's set bits (`bit-iter`).
- `src/net.rs`: the registry of event sources: token allocation, readiness
  set by the poller and consumed by reads (one read per readiness), the
  waker to wake, and tokens that increase over any run of calls.
- `src/io_future.rs`: the read and write futures' state.
- `app/`: the echo server: futures, wakers, the mio poll thread, sockets.
