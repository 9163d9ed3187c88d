# lru

A least-recently-used cache, verified with Verus, together with the property
checks that exercise it and a runner that drives those checks with several
property-based testing tools.

- `src/cache.rs` — `LruCache`: the cache, its model (a sequence of entries,
  least recently used first), and the laws of the model (read after write,
  eviction of the least recently used entry, pop, resize).
- `src/etna.rs` — the property checks, the drop-counting `TrackedKey` and
  `TrackedVal`, `unique_keys`, the work of the leak checks (`tracked_cache`,
  `tracked_key_cache`, `clear_or_shrink`, `pop_each`), the `judge_*`
  functions that do that work and read the drop count, and the `check_*`
  verdicts that turn an observation into a `PropertyResult`.
- `src/runner.rs` — the runner's decisions: property and tool names, the
  fixed witness inputs, combining outcomes, lengths of generated inputs.
- `src/report.rs`, `src/text.rs` — the one-line JSON report and the text it
  is built from.
- `app/main.rs` — the command-line runner: argument handling, timing, the
  testing frameworks, printing.
- `tests/` — tests of all of the above on concrete values.
