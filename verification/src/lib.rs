//! Alignment of independently sampled motion-sensor series.
//!
//! Datagram payloads are framed into readings, readings are appended to
//! per-device columns, the columns are rendered as a delimited text table,
//! and a saved table is resampled onto the timeline of one reference device.
//!
//! Numeric cells travel through this crate as text. Where the resampling
//! rules compare timestamps they do so on ordering keys: signed integers
//! that the caller assigns so that they order exactly as the timestamps do.
//! Sums, means and midpoints of numbers are the caller's to compute; this
//! crate decides which rows they are taken over and where the results go.
//!
//! - `text`: fields, whitespace and small decimal numbers on bytes
//! - `number`: the written form of a number
//! - `parser`: payload to batch
//! - `ingest`: the collection loop's next action
//! - `registry`: the declared devices
//! - `buffer`: the columns that readings are appended to
//! - `table`: columns to text and back
//! - `round_trip`: what is read back is what was rendered
//! - `resample`: reference, windows, gaps and the aligned table

pub mod buffer;
pub mod ingest;
pub mod number;
pub mod parser;
pub mod registry;
pub mod resample;
pub mod round_trip;
pub mod table;
pub mod text;
