//! An in-memory timeline of entity states, emitted as the JSON records of the
//! statemap format: one header record, then one record per state change.

pub mod calendar;
pub mod decimal;
pub mod error;
pub mod json;
pub mod statemap;
