# buffers

Bounded FIFO ring buffers with machine-checked contracts.

- `src/ringbuf.rs`: `RingBuf<T, N, P, C>` with free-running wrapping position
  counters, and the `SpscRingBuf` / `MpscRingBuf` / `MpmcRingBuf` aliases.
- `src/fixed.rs`: `RingBuf<N>` of `usize` values with head, tail and a full flag.
- `src/log.rs`: `Level`, the `Logger` trait and `RingLogger`, which keeps log
  lines as bytes in a ring.
- `src/model.rs`: the sequence model the contracts are stated in, and the
  queue laws proved over it.
- `src/modular.rs`: remainder lemmas used by the index arithmetic.
- `app/`: a lock-free variant shared between threads through atomics.
