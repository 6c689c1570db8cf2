//! What can go wrong while a document is read.

use vstd::prelude::*;

use crate::object::{ObjectId, ObjectKind};

verus! {

/// A failure to read the bytes a document comes from.
#[derive(Clone, Copy, Debug, PartialEq, Eq, Structural)]
pub enum IoError {
    /// The source ended before the bytes asked for.
    UnexpectedEof,
    /// The source cannot be read here, such as one too large to address.
    Unsupported,
    /// Any other failure of the source.
    Other,
}

/// What is wrong with a file's cross-reference data.
#[derive(Clone, Copy, Debug, PartialEq, Eq, Structural)]
pub enum XrefError {
    /// `startxref` is missing or leads outside the file.
    Start,
    /// `/Prev` leads outside the file.
    PrevStart,
    /// `/XRefStm` leads outside the file.
    StreamStart,
}

/// What cannot be parsed.
#[derive(Clone, Copy, Debug, PartialEq, Eq, Structural)]
pub enum ParseError {
    InvalidFileHeader,
    InvalidXref,
    InvalidTrailer,
    IndirectObject,
}

/// Why a stream cannot be decoded.
#[derive(Clone, Copy, Debug, PartialEq, Eq, Structural)]
pub enum DecompressError {
    /// The stream decodes to more than `limit` bytes.
    MemoryLimitExceeded { limit: usize },
    /// The stream's filter is not one that can be decoded.
    UnsupportedFilter,
}

/// Why content cannot be decrypted.
#[derive(Clone, Copy, Debug, PartialEq, Eq, Structural)]
pub enum DecryptionError {
    InvalidKeyLength,
    InvalidCipherTextLength,
    Padding,
    /// A failure of a filter's own.
    Filter,
}

#[derive(Clone, Copy, Debug, PartialEq, Eq)]
pub enum Error {
    /// The source could not be read.
    IO(IoError),
    /// A dictionary has no such key.
    DictKey,
    /// An object is of another kind than the one asked for.
    ObjectType { expected: ObjectKind, found: ObjectKind },
    /// The document holds no such object.
    ObjectNotFound(ObjectId),
    /// A chain of references is too long.
    ReferenceLimit,
    /// Resolving an object came back to it.
    ReferenceCycle(ObjectId),
    /// The cross-reference table has no such entry.
    MissingXrefEntry,
    /// An offset outside the file.
    InvalidOffset(usize),
    Xref(XrefError),
    Parse(ParseError),
    Decompress(DecompressError),
    Decryption(DecryptionError),
    /// The password does not open the document.
    InvalidPassword,
    /// The document has no outline.
    NoOutline,
    /// A text string does not decode.
    TextStringDecode,
}

pub type Result<T> = std::result::Result<T, Error>;

} // verus!
