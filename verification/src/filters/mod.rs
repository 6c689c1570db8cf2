//! Stream filters.

pub mod flate;
pub mod png;
