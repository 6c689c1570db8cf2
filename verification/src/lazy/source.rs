//! Random-access bytes.

use vstd::prelude::*;

use crate::error::IoError;

verus! {

/// Random-access bytes that a [`LazyDocument`](crate::lazy::document::LazyDocument) reads from.
///
/// Reads are positional and independent, so a source never needs to hold the whole PDF.
pub trait RandomAccessSource {
    /// The bytes. A source outside the proof's reach, such as a file, leaves them open.
    closed spec fn content(&self) -> Seq<u8> {
        arbitrary()
    }

    /// Whether a read within the bytes can fail.
    closed spec fn can_fail(&self) -> bool {
        true
    }

    /// Total length of the source in bytes.
    fn len(&self) -> (r: u64)
        ensures
            r == self.content().len(),
    ;

    /// Whether the source holds no bytes.
    fn is_empty(&self) -> (r: bool)
        ensures
            r == (self.content().len() == 0),
    {
        self.len() == 0
    }

    /// Fills `buf` with the bytes starting at `offset`, failing if the source ends first.
    fn read_exact_at(&self, offset: u64, buf: &mut Vec<u8>) -> (r: std::result::Result<(), IoError>)
        ensures
            final(buf)@.len() == old(buf)@.len(),
            match r {
                Ok(_) => offset + old(buf)@.len() <= self.content().len() && final(buf)@
                    == self.content().subrange(offset as int, offset + old(buf)@.len()),
                Err(error) => self.can_fail() || (offset + old(buf)@.len() > self.content().len()
                    && error == IoError::UnexpectedEof && final(buf)@ == old(buf)@),
            },
    ;
}

/// Fills `buf` with the bytes of `bytes` starting at `offset`.
fn read_from_slice(bytes: &[u8], offset: u64, buf: &mut Vec<u8>) -> (r: std::result::Result<
    (),
    IoError,
>)
    ensures
        final(buf)@.len() == old(buf)@.len(),
        match r {
            Ok(_) => offset + old(buf)@.len() <= bytes@.len() && final(buf)@ == bytes@.subrange(
                offset as int,
                offset + old(buf)@.len(),
            ),
            Err(error) => offset + old(buf)@.len() > bytes@.len() && error == IoError::UnexpectedEof
                && final(buf)@ == old(buf)@,
        },
{
    let len = buf.len();
    if offset as u128 + len as u128 > bytes.len() as u128 {
        return Err(IoError::UnexpectedEof);
    }
    let start = offset as usize;
    let mut i: usize = 0;
    while i < len
        invariant
            len == buf@.len(),
            i <= len,
            start == offset,
            start + len <= bytes@.len(),
            bytes@.len() <= usize::MAX,
            forall|j: int| 0 <= j < i ==> #[trigger] buf@[j] == bytes@[start + j],
        decreases len - i,
    {
        buf.set(i, bytes[start + i]);
        i += 1;
    }
    assert(buf@ =~= bytes@.subrange(offset as int, offset + len));
    Ok(())
}

impl RandomAccessSource for [u8] {
    open spec fn content(&self) -> Seq<u8> {
        self@
    }

    open spec fn can_fail(&self) -> bool {
        false
    }

    fn len(&self) -> (r: u64) {
        let bytes: &[u8] = self;
        <[u8]>::len(bytes) as u64
    }

    fn read_exact_at(&self, offset: u64, buf: &mut Vec<u8>) -> (r: std::result::Result<(), IoError>) {
        read_from_slice(self, offset, buf)
    }
}

impl RandomAccessSource for Vec<u8> {
    open spec fn content(&self) -> Seq<u8> {
        self@
    }

    open spec fn can_fail(&self) -> bool {
        false
    }

    fn len(&self) -> (r: u64) {
        self.as_slice().len() as u64
    }

    fn read_exact_at(&self, offset: u64, buf: &mut Vec<u8>) -> (r: std::result::Result<(), IoError>) {
        read_from_slice(self.as_slice(), offset, buf)
    }
}

impl<T: RandomAccessSource + ?Sized> RandomAccessSource for &T {
    open spec fn content(&self) -> Seq<u8> {
        (**self).content()
    }

    open spec fn can_fail(&self) -> bool {
        (**self).can_fail()
    }

    fn len(&self) -> (r: u64) {
        (**self).len()
    }

    fn read_exact_at(&self, offset: u64, buf: &mut Vec<u8>) -> (r: std::result::Result<(), IoError>) {
        (**self).read_exact_at(offset, buf)
    }
}

} // verus!
