//! Per-station temperature statistics over delimited text records.
//!
//! A record is one line `NAME;READING`, where the reading is a decimal
//! number with one fractional digit. Readings are held as integers in tenths
//! of a degree, so that sums stay exact. A buffer of records is aggregated
//! into a table from station name to running statistics; tables built from
//! separate blocks of a file are merged, and the merged table is rendered as
//! one line of text with the stations in ascending byte order.

pub mod error;
pub mod reading;
pub mod stats;
pub mod model;
pub mod table;
pub mod records;
pub mod block;
pub mod partition;
pub mod pipeline;
pub mod report;
pub mod timer_buddy;
