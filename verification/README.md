# AgenticMQ

A message broker for language-model agents. Clients submit tasks; workers poll
for them by model, report on them, pause them for a human to approve, complete
them or fail them over to the next model of the task.

- `src/` is the broker itself, in Verus. `model.rs` says what each operation does
  as a function from one state to the next; `broker.rs` does it. `limiter.rs`
  keeps each model to its requests and tokens per minute, `schedule.rs` orders
  the tasks that wait, and `queue.rs` holds them. `limiter_laws.rs`,
  `broker_laws.rs` and `history.rs` state and prove what holds across operations:
  that no waiting task is forgotten, that no task blocks the ones behind it, and,
  over any number of operations, that no task is handed out twice without being put
  back, that a task uses its fallback models in turn, and that a used key stays
  refused.
- `app/` is the HTTP service around it, with the tasks on disk.
- `tests/` run the library.

The service reads these environment variables:

| Variable | Default |
|---|---|
| `AGENTICMQ_STATE_DIR` | `.agenticmq_state` |
| `AGENTICMQ_HOST` | `127.0.0.1` |
| `AGENTICMQ_PORT` | `8080` |
| `AGENTICMQ_DEFAULT_GPT4O_TPM`, `..._RPM` | 30000, 20 |
| `AGENTICMQ_DEFAULT_GPT4O_MINI_TPM`, `..._RPM` | 150000, 100 |
| `AGENTICMQ_CLAUDE_SONNET_MODEL` | required: the identifier under which its provider offers the 3.5 Sonnet model |
| `AGENTICMQ_DEFAULT_CLAUDE_SONNET_TPM`, `..._RPM` | 40000, 25 |
