//! A stream's stored bytes, read a chunk at a time.

use vstd::prelude::*;
use vstd::slice::slice_subrange;

use crate::error::{Error, Result};
use crate::resolver::source_failure;

verus! {

/// The most stored bytes that one read gives.
pub const CHUNK: usize = 65_536;

/// A stream's content as the file stores it, before any filter, read front to back a chunk at a
/// time, so that it need not be held whole.
pub trait StoredBytes {
    /// All the bytes, or what goes wrong with them at the end.
    spec fn whole(&self) -> std::result::Result<Seq<u8>, Error>;

    /// The bytes given since the start.
    spec fn given(&self) -> Seq<u8>;

    /// How many more chunks there can be.
    spec fn chunks_left(&self) -> nat;

    /// Whether reading the source can fail.
    spec fn can_fail(&self) -> bool;

    spec fn well_formed(&self) -> bool;

    /// Appends the next chunk to `output`, and returns false once there is none. A chunk may be
    /// empty before the end.
    fn read_chunk(&mut self, output: &mut Vec<u8>) -> (r: Result<bool>)
        requires
            old(self).well_formed(),
        ensures
            final(self).well_formed(),
            final(self).whole() == old(self).whole(),
            final(self).can_fail() == old(self).can_fail(),
            match r {
                Ok(true) => {
                    &&& final(self).chunks_left() < old(self).chunks_left()
                    &&& old(self).given().len() <= final(self).given().len()
                    &&& old(self).given() == final(self).given().take(
                        old(self).given().len() as int,
                    )
                    &&& final(output)@ == old(output)@ + final(self).given().skip(
                        old(self).given().len() as int,
                    )
                },
                Ok(false) => {
                    &&& final(output)@ == old(output)@
                    &&& final(self).given() == old(self).given()
                    &&& final(self).whole() == Ok::<Seq<u8>, Error>(final(self).given())
                },
                Err(error) => source_failure(error, old(self).can_fail()) || old(self).whole()
                    == Err::<Seq<u8>, Error>(error),
            },
    ;

    /// Starts again from the first byte.
    fn rewind(&mut self) -> (r: Result<()>)
        requires
            old(self).well_formed(),
        ensures
            final(self).well_formed(),
            final(self).whole() == old(self).whole(),
            final(self).can_fail() == old(self).can_fail(),
            r is Ok,
            final(self).given().len() == 0,
    ;
}

/// All of `stored`, of which nothing has been given yet.
pub fn read_all<B: StoredBytes>(stored: B) -> (r: Result<Vec<u8>>)
    requires
        stored.well_formed(),
        stored.given().len() == 0,
    ensures
        match r {
            Ok(all) => stored.whole() == Ok::<Seq<u8>, Error>(all@),
            Err(error) => source_failure(error, stored.can_fail()) || stored.whole() == Err::<
                Seq<u8>,
                Error,
            >(error),
        },
{
    let mut bytes = stored;
    let mut all: Vec<u8> = Vec::new();
    assert(all@ =~= bytes.given());
    loop
        invariant
            bytes.well_formed(),
            bytes.whole() == stored.whole(),
            bytes.can_fail() == stored.can_fail(),
            all@ == bytes.given(),
        decreases bytes.chunks_left(),
    {
        let ghost before = bytes.given();
        match bytes.read_chunk(&mut all) {
            Ok(true) => {
                let ghost after = bytes.given();
                assert(after.take(before.len() as int) + after.skip(before.len() as int) =~= after);
            },
            Ok(false) => {
                return Ok(all);
            },
            Err(error) => {
                return Err(error);
            },
        }
    }
}

/// Stored bytes held in memory.
pub struct SliceBytes<'a> {
    bytes: &'a [u8],
    position: usize,
}

impl<'a> SliceBytes<'a> {
    pub fn new(bytes: &'a [u8]) -> (r: Self)
        ensures
            r.well_formed(),
            r.whole() == Ok::<Seq<u8>, Error>(bytes@),
            r.given().len() == 0,
    {
        SliceBytes { bytes, position: 0 }
    }
}

impl StoredBytes for SliceBytes<'_> {
    closed spec fn whole(&self) -> std::result::Result<Seq<u8>, Error> {
        Ok(self.bytes@)
    }

    closed spec fn given(&self) -> Seq<u8> {
        self.bytes@.take(self.position as int)
    }

    closed spec fn chunks_left(&self) -> nat {
        (self.bytes@.len() - self.position) as nat
    }

    closed spec fn can_fail(&self) -> bool {
        false
    }

    closed spec fn well_formed(&self) -> bool {
        self.position <= self.bytes@.len()
    }

    fn read_chunk(&mut self, output: &mut Vec<u8>) -> (r: Result<bool>) {
        let ghost before = output@;
        let ghost given = self.given();
        let rest = self.bytes.len() - self.position;
        if rest == 0 {
            assert(self.given() =~= self.bytes@);
            return Ok(false);
        }
        let end = if rest < CHUNK {
            self.bytes.len()
        } else {
            self.position + CHUNK
        };
        let chunk = slice_subrange(self.bytes, self.position, end);
        output.extend_from_slice(chunk);
        self.position = end;
        assert(self.given().take(given.len() as int) =~= given);
        assert(output@ =~= before + self.given().skip(given.len() as int));
        Ok(true)
    }

    fn rewind(&mut self) -> (r: Result<()>) {
        self.position = 0;
        Ok(())
    }
}

impl<T: StoredBytes> StoredBytes for Box<T> {
    open spec fn whole(&self) -> std::result::Result<Seq<u8>, Error> {
        (**self).whole()
    }

    open spec fn given(&self) -> Seq<u8> {
        (**self).given()
    }

    open spec fn chunks_left(&self) -> nat {
        (**self).chunks_left()
    }

    open spec fn can_fail(&self) -> bool {
        (**self).can_fail()
    }

    open spec fn well_formed(&self) -> bool {
        (**self).well_formed()
    }

    fn read_chunk(&mut self, output: &mut Vec<u8>) -> (r: Result<bool>) {
        (**self).read_chunk(output)
    }

    fn rewind(&mut self) -> (r: Result<()>) {
        (**self).rewind()
    }
}

} // verus!
