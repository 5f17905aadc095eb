# greptimedb

Verified parts of a time-series database: the write path of Prometheus remote write, the parts
of a memtable, and the bookkeeping around them.

- `src/` is the library. Verus proves the contract of every function in it but the
  small ones that call other crates (see below).
  - Remote write: `prom_store`, `prom_wire`, `prom_encoding`, `proto`, `prom_bulk`.
  - Rows that wait to be flushed: `rows`, `table_builders`, `pending_batch`,
    `pending_rows_batcher`, `flush`, `append_metrics`.
  - Batches of metrics: `logical_schemas`, `metrics_batch_builder`, `batch_builder`,
    `batch_modifier`.
  - Parts of a memtable: `bulk_part`, `row_order`.
  - Files: `stream_writer`, `file_purger`, `trash`, `log_store`, `compaction`,
    `serialization_size`.
  - Queries: `process_manager`, `throttled`.
  - What the rest stands on: `record_batch`, `region`, `keyed_map`, `lists`, `text`, and the
    calls into arrow, `arrow_batch` and `arrow_builders`.
- `app/` puts the library behind files, sockets, channels and timers.
- `tests/` runs the library on concrete values, with the crates it calls linked in.

Calls into other crates stand behind small functions marked `#[verifier::external_body]`. What
Verus believes of such a call is its `ensures`; the comment above says which function is called
and what is claimed of it. A `uninterp` function names a result, or what a collection holds,
where no short formula says it.

Floating-point numbers are carried by their bits, and times are numbers that the caller reads
from a clock.
