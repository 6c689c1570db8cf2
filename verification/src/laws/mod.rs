//! What holds of the library's functions, said of their inputs and results.

pub mod areas;
pub mod bounds;
pub mod built_documents;
pub mod ciphers;
pub mod comparisons;
pub mod composites;
pub mod contents;
pub mod fonts;
pub mod labels;
pub mod members;
pub mod numerals;
pub mod numbers;
pub mod opening;
pub mod outlines;
pub mod revisions;
pub mod rows;
pub mod saved;
pub mod sections;
pub mod shown_text;
pub mod stored_objects;
pub mod syntax;
pub mod tables;
pub mod texts;
pub mod views;
pub mod written;

use vstd::prelude::*;
use vstd::utf8::encode_utf8_decode_utf8;

use crate::bytes::key;

verus! {

/// Different names are spelt differently.
pub proof fn lemma_keys_differ(a: Seq<char>, b: Seq<char>)
    ensures
        key(a) == key(b) <==> a == b,
{
    encode_utf8_decode_utf8(a);
    encode_utf8_decode_utf8(b);
}

} // verus!
