# smart_todo

The rules behind a to-do desktop app whose database stays local on every
machine while an append-only log of changes travels through a shared cloud
folder. The library is verified with Verus; the app around it is ordinary
Rust.

## Layout

- `src/` — the verified library.
  - `text.rs` — character-level string helpers: equality, code-point order,
    decimal numbers, trimming, path joining.
  - `sync/` — the sync engine's decisions.
    - `op.rs` — revisions (Lamport counter and device, totally ordered) and
      ops.
    - `model.rs` — which entities and fields sync, in dependency order.
    - `capture.rs` — which fields a local edit changed, and how queued
      changes collapse to one op per row.
    - `apply.rs` — the per-field merge rule, conflict records, and the
      insert/update plans for remote ops.
    - `store.rs` — the folder layout, segment naming and rollover, reading
      complete lines, splitting a rewritten log.
    - `meta.rs` — the Lamport clock and device naming.
    - `row.rs`, `schema.rs` — row queries and capture triggers as SQL text.
    - `mod.rs` — pruning the log, replay order, retry and report rules, and
      the laws that pruning keeps what a reader replays.
  - `db.rs` — where the database lives and the startup plan.
  - `commands/` — settings, task edits, the dashboard, timers, and what the
    sync screen shows.
- `tests/` — tests of the library.
- `app/` — the desktop app: the database and its SQL queries, files, clock,
  window and background sync loop. The sync and capture decisions, the
  rewrite plan and the dashboard sections come from the library; which rows
  each SQL query selects is decided by the database.
