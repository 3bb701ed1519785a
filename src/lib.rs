//! Encoding of measurement records into InfluxDB line protocol.
//!
//! A [`Record`] holds a measurement name, tag entries, field entries and an
//! optional timestamp; [`Record::encode`] writes it as one line:
//! `measurement[,tag=value...] field=literal[,field=literal...][ timestamp]`.

pub mod escape;
pub mod laws;
pub mod line;
pub mod literal;

pub use escape::{escape, Position};
pub use line::{Influx3Lp, LpError, Record};
pub use literal::{format_value, TypedValue, MAX_TEXT_BYTES};
