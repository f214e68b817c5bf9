//! Per-key minimum / mean / maximum statistics over `key;value` records.
//!
//! Values are fixed-point decimals with one fractional digit, held as
//! integer tenths throughout. A chunk of complete records is read into a
//! [`StationTable`] by [`process_task`]; tables of separate chunks are
//! combined with [`StationTable::merge`] and printed with
//! [`StationTable::report`].
pub mod keys;
pub mod laws;
pub mod number;
pub mod report;
pub mod scan;
pub mod stats;
pub mod table;

pub use keys::{key_order, KeyOrder};
pub use number::{parse_int, parse_value, push_tenths, ScanError, MAX_TENTHS};
pub use scan::process_task;
pub use stats::Station;
pub use table::StationTable;
