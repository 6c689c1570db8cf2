//! Reading a PDF's structure without loading the whole file.
//!
//! A [`LazyDocument`](document::LazyDocument) reads the cross-reference data and trailer when it
//! opens, and then reads each object from its [`RandomAccessSource`](source::RandomAccessSource)
//! only when asked, so looking at the catalog, the page tree, or an outline touches a small part of
//! a large file.
//!
//! - The `%PDF-` header must appear within the first [`HEADER_SEARCH_LEN`](file::HEADER_SEARCH_LEN)
//!   bytes.
//! - A cross-reference section that cannot be parsed is an error; scanning the whole file for
//!   objects is not attempted.

pub mod document;
pub mod fifo_cache;
pub mod file;
pub mod page_copy;
pub mod single_page;
pub mod source;
pub mod stored_stream;
