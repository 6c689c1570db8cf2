//! Reading a PDF's structure: its objects, page tree, page labels, outline, links, page boxes, and
//! the text of its pages.
//!
//! A document is held in memory as a [`Document`](document::Document), or read from its source an
//! object at a time through a [`LazyDocument`](lazy::document::LazyDocument). Both give their objects
//! through [`ObjectResolver`](resolver::ObjectResolver), and what walks a document's structure is
//! stated over the [`Model`](resolver::Model) that a resolver stands for: its objects with their
//! references followed, its trailer, and its pages.

pub mod bytes;
pub mod common_data_structures;
pub mod destinations;
pub mod document;
pub mod document_outline;
pub mod encodings;
pub mod encryption;
pub mod error;
pub mod filters;
pub mod fixtures;
pub mod font_encoding;
pub mod ids;
pub mod laws;
pub mod lazy;
pub mod name_tree;
pub mod natural;
pub mod number;
pub mod number_tree;
pub mod object;
pub mod object_stream;
pub mod outline_order;
pub mod page_content;
pub mod page_geometry;
pub mod page_labels;
pub mod page_links;
pub mod page_order;
pub mod page_text_runs;
pub mod page_tree;
pub mod parity;
pub mod parser;
pub mod resolver;
pub mod samples;
pub mod sorted_tree;
pub mod stored_bytes;
pub mod stream_filters;
pub mod text;
pub mod toc;
pub mod whole_content;
pub mod writer;
pub mod xref;
