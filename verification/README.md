# rustedvllm

A continuous-batching inference runtime, verified with Verus.

- `src/types.rs` — the protocol shared by scheduler and engine: requests,
  tasks, outputs, commands and results, with the mathematical views the
  contracts use.
- `src/model.rs` — the `Model` interface and the mock model.
- `src/engine.rs` — the `Engine` interface, the mock tokenizer and the mock
  engine, which splits a batch into prefill and decode tasks.
- `src/scheduler.rs` — sequences and the scheduler's state machine: admitting
  requests, applying engine results, building batches.
- `src/lifecycle.rs` — properties proved of the request lifecycle across
  those operations.
- `app/lib.rs` — the asynchronous loops over tokio channels that drive the
  scheduler and an engine, and the async tokenizer interface.
