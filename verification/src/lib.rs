//! Per-event stages of a log pipeline.
//!
//! * [`encoding`] decides how a sink writes an event, as one JSON object or as
//!   the raw log line, and writes it.
//! * [`interpolation`] compiles a sink's key template and gives the partition
//!   key of each event; [`template`] holds the grammar of templates.
//! * [`coercer`] converts chosen fields of an event to a configured kind;
//!   [`conversion`] holds the kinds and their conversions.
//!
//! [`event`] is the event itself. [`buffer`], [`json`] and [`text`] state what
//! is taken on trust from `bytes`, `serde_json` and the standard library.

pub mod buffer;
pub mod coercer;
pub mod conversion;
pub mod encoding;
pub mod event;
pub mod interpolation;
pub mod json;
pub mod template;
pub mod text;

pub use crate::coercer::{Coercer, CoercerConfig};
pub use crate::encoding::{
    event_as_bytes, event_as_bytes_with_nl, event_as_string, BasicEncoding, EncodeFailure,
};
pub use crate::event::{Event, ValueKind};
pub use crate::interpolation::{interpolate, partition, Partition};
