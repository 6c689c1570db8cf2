//! PDF syntax.

pub mod content;
pub mod decimal;
pub mod file;
pub mod indirect;
pub mod lexical;
pub mod objects;
pub mod xref_stream;
