//! How far reading goes.

use vstd::prelude::*;

use crate::destinations::MAX_NAME_TREE_DEPTH;
use crate::document::DEREF_LIMIT;
use crate::encryption::cbc_mode::BLOCK;
use crate::lazy::document::{MIN_OBJECT_WINDOW, OBJECT_CACHE_ENTRIES, OBJECT_STREAM_CACHE_ENTRIES};
use crate::lazy::file::{
    HEADER_SEARCH_LEN, MAX_WINDOW, TAIL_LEN, XREF_OFFSET_RECOVERY_WINDOW, XREF_WINDOW,
};
use crate::number_tree::{MAX_ENTRIES, MAX_NODES, MAX_TREE_DEPTH};
use crate::page_geometry::MAX_INHERITANCE_DEPTH;
use crate::page_text_runs::MAX_FORM_DEPTH;
use crate::page_tree::PAGE_TREE_DEPTH_LIMIT;
use crate::parser::lexical::MAX_BRACKET;
use crate::parser::objects::MAX_NESTING;

verus! {

/// How deep what is written may be nested: arrays and dictionaries, parentheses, pages, forms, and names.
pub proof fn lemma_depths()
    ensures
        MAX_NESTING == 256,
        MAX_BRACKET == 100,
        PAGE_TREE_DEPTH_LIMIT == 256,
        MAX_INHERITANCE_DEPTH == 64,
        MAX_FORM_DEPTH == 8,
        MAX_NAME_TREE_DEPTH == 32,
        MAX_TREE_DEPTH == 32,
        DEREF_LIMIT == 128,
{
}

/// How much is read or kept at once: bytes of a file, nodes and entries of a number tree, objects and
/// object streams.
pub proof fn lemma_sizes()
    ensures
        HEADER_SEARCH_LEN == 4096,
        TAIL_LEN == 1024,
        XREF_WINDOW == 65_536,
        MAX_WINDOW == 64 * 1024 * 1024,
        XREF_OFFSET_RECOVERY_WINDOW == 32,
        MIN_OBJECT_WINDOW == 4096,
        OBJECT_CACHE_ENTRIES == 4096,
        OBJECT_STREAM_CACHE_ENTRIES == 16,
        MAX_NODES == 10_000,
        MAX_ENTRIES == 100_000,
        BLOCK == 16,
{
}

} // verus!
