//! Verified building blocks of a metrics store.

use vstd::prelude::*;

pub mod append_metrics;
pub mod arrow_batch;
pub mod arrow_builders;
pub mod batch_builder;
pub mod batch_modifier;
pub mod bulk_part;
pub mod compaction;
pub mod file_purger;
pub mod flush;
pub mod keyed_map;
pub mod lists;
pub mod log_store;
pub mod logical_schemas;
pub mod metrics_batch_builder;
pub mod pending_batch;
pub mod pending_rows_batcher;
pub mod process_manager;
pub mod prom_bulk;
pub mod prom_encoding;
pub mod prom_store;
pub mod prom_wire;
pub mod proto;
pub mod record_batch;
pub mod region;
pub mod row_order;
pub mod rows;
pub mod serialization_size;
pub mod stream_writer;
pub mod table_builders;
pub mod text;
pub mod throttled;
pub mod trash;

verus! {

} // verus!
