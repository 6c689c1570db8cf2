//! Streams whose content stays in the source until it is read, a chunk at a time.
//!
//! [`LazyDocument::get_object`] reads a stream with its whole stored content. Page content is
//! only ever read front to back, so [`LazyDocument`] also reads a content stream's dictionary
//! alone, and then its content from the source as it is consumed, decrypting on the way. Memory
//! then depends on neither the stored nor the decoded size of the content, for a reader that does not
//! keep it.

use vstd::prelude::*;

use crate::document::DEREF_LIMIT;
use crate::encryption::crypt_filters::{CryptFilter, Rc4CryptFilter};
use crate::encryption::security::ObjectDecryption;
use crate::encryption::stream_decryption::{
    decrypted_in_pieces, decryption_start, lemma_pieces, rest_of, start_error, updated,
    DecryptionState, StreamDecryption,
};
use crate::error::{DecryptionError, Error, Result};
use crate::lazy::document::{
    decrypted, followed_object, head_in, object_end, stored_object, FileModel, LazyDocument,
    MIN_OBJECT_WINDOW,
};
use crate::lazy::source::RandomAccessSource;
use crate::bytes::{key, to_vec};
use crate::object::{
    integer_of, named_entry, value, Dictionary, Entries, Object, ObjectId, Stream, Value,
};
use crate::page_content::{references, references_in};
use crate::parser::indirect::{
    ends_stream, is_stream_end_at, HeadModel, ObjectHead,
};
use crate::resolver::{skip_unless_io, source_failure};
use crate::stored_bytes::{read_all, StoredBytes, CHUNK};
use crate::xref::XrefEntry;

verus! {

/// Room after a stream's content for the end-of-line marker and `endstream`.
pub const STREAM_END_LEN: usize = 16;

/// Where the dictionary and the content of a stream are.
pub struct StreamPlace {
    pub dict: Entries,
    pub start: int,
    pub len: int,
}

/// Object `id` as far as page content needs it.
pub enum PeekedModel {
    Stream(StreamPlace),
    Object(Value),
    Missing,
}

/// Where the largest window for the head of the stream at `offset` ends.
pub open spec fn last_window(file: FileModel, offset: int) -> int {
    object_end(file, offset)
}

/// Where the first window for the head of the stream at `offset` ends.
pub open spec fn head_window(file: FileModel, offset: int) -> int {
    if offset + MIN_OBJECT_WINDOW < last_window(file, offset) {
        offset + MIN_OBJECT_WINDOW
    } else {
        last_window(file, offset)
    }
}

/// The head of a stream in the window from `offset` to `end`, or in a larger one.
pub open spec fn stream_head(file: FileModel, id: ObjectId, offset: int, end: int) -> Option<
    (Entries, int),
>
    decreases last_window(file, offset) - end,
{
    match head_in(file, id, offset, end) {
        Some(HeadModel::Stream { dict, start }) => Some((dict, offset + start)),
        Some(HeadModel::Object(_)) => None,
        None => if offset < end < last_window(file, offset) {
            let wide = offset + (end - offset) * 4;
            stream_head(
                file,
                id,
                offset,
                if wide < last_window(file, offset) {
                    wide
                } else {
                    last_window(file, offset)
                },
            )
        } else {
            None
        },
    }
}

/// The length that a stream's dictionary gives, in it or by another object.
pub open spec fn peeked_length(file: FileModel, id: ObjectId, dict: Entries) -> Option<i64> {
    match named_entry(dict, "Length"@) {
        Some(Value::Reference(length_id)) => if length_id == id {
            None
        } else {
            match followed_object(file, length_id, DEREF_LIMIT as nat) {
                Ok(length) => integer_of(length),
                Err(_) => None,
            }
        },
        Some(length) => integer_of(length),
        None => None,
    }
}

/// Whether the content of a stream ends at `end`.
pub open spec fn content_ends(file: FileModel, end: int) -> bool {
    let stop = if end + STREAM_END_LEN < file.bytes.len() {
        end + STREAM_END_LEN
    } else {
        file.bytes.len() as int
    };
    ends_stream(file.bytes.subrange(end, stop), 0)
}

/// Where stream `id` is, if its `/Length` and `endstream` check out.
pub open spec fn stream_place(file: FileModel, id: ObjectId) -> Option<StreamPlace> {
    if file.structure.table.contains_key(id.0) {
        match file.structure.table[id.0] {
            XrefEntry::Normal { offset, generation } => if generation == id.1 && offset
                < file.bytes.len() {
                match stream_head(file, id, offset as int, head_window(file, offset as int)) {
                    Some((dict, start)) => match peeked_length(file, id, dict) {
                        Some(len) => if 0 <= len && start + len <= file.bytes.len()
                            && content_ends(file, start + len) {
                            Some(StreamPlace { dict, start, len: len as int })
                        } else {
                            None
                        },
                        None => None,
                    },
                    None => None,
                }
            } else {
                None
            },
            _ => None,
        }
    } else {
        None
    }
}

/// Object `id`, without the content of a stream whose `/Length` and `endstream` check out.
pub open spec fn peeked(file: FileModel, id: ObjectId) -> PeekedModel {
    match (stream_place(file, id), stored_object(file, id)) {
        (Some(place), _) => PeekedModel::Stream(place),
        (None, Ok(value)) => PeekedModel::Object(value),
        (None, Err(_)) => PeekedModel::Missing,
    }
}

/// Stream `id` with its content, decrypted, or `None` when `id` is no stream.
pub open spec fn opened(file: FileModel, id: ObjectId) -> Option<Value> {
    match peeked(file, id) {
        PeekedModel::Stream(place) => match decrypted(
            file,
            id,
            Value::Stream(place.dict, file.bytes.subrange(place.start, place.start + place.len)),
        ) {
            Value::Stream(dict, content) => Some(Value::Stream(dict, content)),
            _ => None,
        },
        PeekedModel::Object(Value::Stream(dict, content)) => Some(Value::Stream(dict, content)),
        _ => None,
    }
}

/// The content streams that `contents` names: an array's references, or the one stream, or the one
/// missing object, that a chain of no more than `left` references leads to.
pub open spec fn lazy_content_ids(file: FileModel, contents: Value, left: nat) -> Seq<ObjectId>
    decreases left,
{
    match contents {
        Value::Reference(id) => match peeked(file, id) {
            PeekedModel::Stream(_) => seq![id],
            PeekedModel::Missing => seq![id],
            PeekedModel::Object(Value::Stream(_, _)) => seq![id],
            PeekedModel::Object(object) => if left <= 1 {
                Seq::empty()
            } else {
                lazy_content_ids(file, object, (left - 1) as nat)
            },
        },
        Value::Array(items) => references_in(items),
        _ => Seq::empty(),
    }
}

/// The content streams of a page.
#[verifier::opaque]
pub open spec fn lazy_page_content_ids(file: FileModel, page: ObjectId) -> Seq<ObjectId> {
    match followed_object(file, page, DEREF_LIMIT as nat) {
        Ok(Value::Dictionary(page)) => match named_entry(page, "Contents"@) {
            Some(contents) => lazy_content_ids(file, contents, DEREF_LIMIT as nat),
            None => Seq::empty(),
        },
        _ => Seq::empty(),
    }
}

/// Object `id` as far as page content needs it.
pub enum Peeked {
    /// A stream whose content is in the source from `start`, `len` bytes long.
    Stream { dict: Dictionary, start: usize, len: usize },
    /// Any other object, or a stream read whole, such as one whose `/Length` is wrong.
    Object(Object),
    /// An object that cannot be read.
    Missing,
}

impl Peeked {
    pub open spec fn model(&self) -> PeekedModel {
        match self {
            Peeked::Stream { dict, start, len } => PeekedModel::Stream(
                StreamPlace { dict: dict@, start: *start as int, len: *len as int },
            ),
            Peeked::Object(object) => PeekedModel::Object(object@),
            Peeked::Missing => PeekedModel::Missing,
        }
    }
}

impl<S: RandomAccessSource, K: ObjectDecryption> LazyDocument<S, K> {
    /// The content streams of page `page_id`, without reading their content.
    pub fn page_content_ids(&self, page_id: ObjectId) -> (r: Result<Vec<ObjectId>>)
        ensures
            match r {
                Ok(ids) => ids@ == lazy_page_content_ids(self.file(), page_id),
                Err(error) => source_failure(error, self.source_can_fail()),
            },
    {
        proof {
            reveal(lazy_page_content_ids);
        }
        let ghost file = self.file();
        let mut streams: Vec<ObjectId> = Vec::new();
        let page = match skip_unless_io(self.get_object(page_id)) {
            Ok(Some(Object::Dictionary(page))) => page,
            Ok(_) => {
                return Ok(streams);
            },
            Err(error) => {
                return Err(error);
            },
        };
        let mut contents = match page.named("Contents") {
            Some(contents) => contents.clone(),
            None => {
                return Ok(streams);
            },
        };
        let mut left: usize = DEREF_LIMIT;
        loop
            invariant
                file == self.file(),
                streams@.len() == 0,
                left >= 1,
                lazy_content_ids(file, contents@, left as nat) == lazy_page_content_ids(
                    file,
                    page_id,
                ),
            decreases left,
        {
            match contents {
                Object::Reference(id) => {
                    let object = match self.peek(id) {
                        Ok(Peeked::Object(object)) => object,
                        Ok(_) => {
                            streams.push(id);
                            assert(streams@ =~= seq![id]);
                            return Ok(streams);
                        },
                        Err(error) => {
                            return Err(error);
                        },
                    };
                    if let Object::Stream(_) = &object {
                        streams.push(id);
                        assert(streams@ =~= seq![id]);
                        return Ok(streams);
                    }
                    if left == 1 {
                        return Ok(streams);
                    }
                    left -= 1;
                    contents = object;
                },
                Object::Array(items) => {
                    return Ok(references(&items));
                },
                _ => {
                    return Ok(streams);
                },
            }
        }
    }

    /// The dictionary of stream `id` at `offset`, and where its content starts.
    fn stream_head(&self, id: ObjectId, offset: usize) -> (r: Result<Option<(Dictionary, usize)>>)
        requires
            offset < self.file().bytes.len(),
        ensures
            ({
                let expected = stream_head(
                    self.file(),
                    id,
                    offset as int,
                    head_window(self.file(), offset as int),
                );
                match r {
                    Ok(Some((dict, start))) => expected == Some((dict@, start as int)) && start
                        <= self.file().bytes.len(),
                    Ok(None) => expected is None,
                    Err(error) => source_failure(error, self.source_can_fail()),
                }
            }),
    {
        let ghost file = self.file();
        let end = self.object_end_at(offset);
        let mut window_end = if end - offset > MIN_OBJECT_WINDOW {
            offset + MIN_OBJECT_WINDOW
        } else {
            end
        };
        let ghost expected = stream_head(file, id, offset as int, window_end as int);
        loop
            invariant
                file == self.file(),
                offset < window_end <= end <= file.bytes.len(),
                end == last_window(file, offset as int),
                expected == stream_head(
                    file,
                    id,
                    offset as int,
                    head_window(file, offset as int),
                ),
                expected == stream_head(file, id, offset as int, window_end as int),
            decreases end - window_end,
        {
            match self.head_at(id, offset, window_end) {
                Ok(Some(ObjectHead::Stream { dict, start })) => {
                    return Ok(Some((dict, offset + start)));
                },
                Ok(Some(ObjectHead::Object(_))) => {
                    return Ok(None);
                },
                Ok(None) => {
                    if window_end >= end {
                        return Ok(None);
                    }
                    let window = (window_end - offset) as u128 * 4;
                    window_end = if ((end - offset) as u128) > window {
                        offset + window as usize
                    } else {
                        end
                    };
                },
                Err(error) => {
                    return Err(error);
                },
            }
        }
    }

    /// The length that the dictionary of stream `id` gives, in it or by another object.
    fn peeked_length(&self, id: ObjectId, dict: &Dictionary) -> (r: Result<Option<i64>>)
        ensures
            match r {
                Ok(length) => length == peeked_length(self.file(), id, dict@),
                Err(error) => source_failure(error, self.source_can_fail()),
            },
    {
        match dict.named("Length") {
            Some(Object::Reference(length_id)) => {
                if length_id.0 == id.0 && length_id.1 == id.1 {
                    return Ok(None);
                }
                match skip_unless_io(self.get_object(*length_id)) {
                    Ok(Some(Object::Integer(length))) => Ok(Some(length)),
                    Ok(_) => Ok(None),
                    Err(error) => Err(error),
                }
            },
            Some(Object::Integer(length)) => Ok(Some(*length)),
            _ => Ok(None),
        }
    }

    /// Whether the content of a stream ends at `end`.
    fn content_ends(&self, end: usize) -> (r: Result<bool>)
        requires
            end <= self.file().bytes.len(),
        ensures
            match r {
                Ok(ends) => ends == content_ends(self.file(), end as int),
                Err(error) => source_failure(error, self.source_can_fail()),
            },
    {
        let total = self.byte_len();
        let stop = if total - end > STREAM_END_LEN {
            end + STREAM_END_LEN
        } else {
            total
        };
        match self.read_bytes(end, stop) {
            Ok(tail) => Ok(is_stream_end_at(tail.as_slice(), 0)),
            Err(error) => Err(error),
        }
    }

    /// Where stream `id` is, if its `/Length` and `endstream` check out.
    fn stream_place(&self, id: ObjectId) -> (r: Result<Option<(Dictionary, usize, usize)>>)
        ensures
            match r {
                Ok(Some((dict, start, len))) => stream_place(self.file(), id) == Some(
                    StreamPlace { dict: dict@, start: start as int, len: len as int },
                ) && start + len <= self.file().bytes.len(),
                Ok(None) => stream_place(self.file(), id) is None,
                Err(error) => source_failure(error, self.source_can_fail()),
            },
    {
        // An object in an object stream is never a stream.
        let offset = match self.reference_table().get(id.0) {
            Some(XrefEntry::Normal { offset, generation }) => {
                if generation != id.1 || offset as usize >= self.byte_len() {
                    return Ok(None);
                }
                offset as usize
            },
            _ => {
                return Ok(None);
            },
        };
        let (dict, start) = match self.stream_head(id, offset) {
            Ok(Some(head)) => head,
            Ok(None) => {
                return Ok(None);
            },
            Err(error) => {
                return Err(error);
            },
        };
        let len = match self.peeked_length(id, &dict) {
            Ok(Some(len)) => len,
            Ok(None) => {
                return Ok(None);
            },
            Err(error) => {
                return Err(error);
            },
        };
        if len < 0 || len as u64 > (self.byte_len() - start) as u64 {
            return Ok(None);
        }
        match self.content_ends(start + len as usize) {
            Ok(true) => Ok(Some((dict, start, len as usize))),
            Ok(false) => Ok(None),
            Err(error) => Err(error),
        }
    }

    /// Object `id`, without the content of a stream whose `/Length` and `endstream` check out.
    pub fn peek(&self, id: ObjectId) -> (r: Result<Peeked>)
        ensures
            match r {
                Ok(found) => found.model() == peeked(self.file(), id) && (
                found matches Peeked::Stream { start, len, .. } ==> start + len
                    <= self.file().bytes.len()),
                Err(error) => source_failure(error, self.source_can_fail()),
            },
    {
        match self.stream_place(id) {
            Ok(Some((dict, start, len))) => Ok(Peeked::Stream { dict, start, len }),
            Ok(None) => match skip_unless_io(self.stored(id)) {
                Ok(Some(object)) => Ok(Peeked::Object(object)),
                Ok(None) => Ok(Peeked::Missing),
                Err(error) => Err(error),
            },
            Err(error) => Err(error),
        }
    }
}

/// Decryption of a stream's content as it is read.
pub struct Decryption<F: CryptFilter> {
    filter: F,
    key: Vec<u8>,
    state: StreamDecryption<F>,
    finished: bool,
}

impl<F: CryptFilter + Copy> Decryption<F> {
    pub closed spec fn filter(&self) -> F {
        self.filter
    }

    pub closed spec fn key(&self) -> Seq<u8> {
        self.key@
    }

    /// Where decryption starts.
    spec fn start(&self) -> DecryptionState {
        decryption_start(self.filter.method_name(), self.key@)
    }

    /// Whether content of `len` bytes can be decrypted.
    pub closed spec fn fits(&self, len: nat) -> bool {
        &&& self.filter.takes(self.key@)
        &&& self.filter.method_name() == key("V2"@) ==> 1 <= self.key@.len() <= 256
        &&& start_error(self.filter.method_name(), self.key@, len) is None
    }

    /// Whether decryption has come as far as the ciphertext `consumed`.
    pub closed spec fn has_consumed(&self, consumed: Seq<u8>) -> bool {
        &&& self.state.well_formed()
        &&& !self.finished ==> self.state.state() == updated(self.start(), consumed).0
        &&& match self.state.state() {
            DecryptionState::Whole { .. } => self.state.filter() == Some(self.filter),
            _ => true,
        }
    }

    pub closed spec fn is_finished(&self) -> bool {
        self.finished
    }

    pub fn new(filter: F, key: Vec<u8>, len: usize) -> (r: std::result::Result<
        Self,
        DecryptionError,
    >)
        requires
            filter.takes(key@),
            filter.method_name() == crate::bytes::key("V2"@) ==> 1 <= key@.len() <= 256,
        ensures
            match r {
                Ok(decryption) => {
                    &&& decryption.filter() == filter
                    &&& decryption.key() == key@
                    &&& decryption.fits(len as nat)
                    &&& decryption.has_consumed(Seq::empty())
                    &&& !decryption.is_finished()
                },
                Err(error) => start_error(filter.method_name(), key@, len as nat) == Some(error),
            },
    {
        let copy = to_vec(key.as_slice());
        match StreamDecryption::new(filter, copy, len) {
            Ok(state) => {
                proof {
                    lemma_nothing_consumed(filter.method_name(), key@);
                }
                Ok(Decryption { filter, key, state, finished: false })
            },
            Err(error) => Err(error),
        }
    }

    /// The plaintext of the ciphertext `consumed`, as far as it has been given.
    spec fn plaintext(&self, consumed: Seq<u8>) -> Seq<u8> {
        let (state, early) = updated(self.start(), consumed);
        match rest_of(self.filter, state) {
            Ok(rest) if self.finished => early + rest,
            _ => early,
        }
    }

    /// Appends the plaintext that the ciphertext `bytes` settles.
    fn consume(&mut self, Ghost(consumed): Ghost<Seq<u8>>, bytes: &[u8], output: &mut Vec<u8>)
        requires
            exists|len: nat| old(self).fits(len),
            old(self).has_consumed(consumed),
            !old(self).finished,
        ensures
            final(self).filter == old(self).filter,
            final(self).key == old(self).key,
            !final(self).finished,
            final(self).has_consumed(consumed + bytes@),
            ({
                let before = old(self).plaintext(consumed);
                let after = final(self).plaintext(consumed + bytes@);
                &&& before.len() <= after.len()
                &&& before == after.take(before.len() as int)
                &&& final(output)@ == old(output)@ + after.skip(before.len() as int)
            }),
    {
        proof {
            lemma_pieces(self.start(), consumed, bytes@);
            let early = updated(self.start(), consumed).1;
            let late = updated(self.state.state(), bytes@).1;
            assert((early + late).take(early.len() as int) =~= early);
            assert((early + late).skip(early.len() as int) =~= late);
        }
        self.state.update(bytes, output);
    }

    /// Appends the plaintext that the end of the ciphertext settles.
    fn finish(&mut self, Ghost(consumed): Ghost<Seq<u8>>, output: &mut Vec<u8>) -> (r:
        std::result::Result<(), DecryptionError>)
        requires
            old(self).has_consumed(consumed),
            !old(self).finished,
        ensures
            final(self).filter == old(self).filter,
            final(self).key == old(self).key,
            final(self).has_consumed(consumed),
            final(self).finished == (r is Ok),
            match r {
                Ok(_) => {
                    let before = old(self).plaintext(consumed);
                    let after = final(self).plaintext(consumed);
                    &&& decrypted_in_pieces(old(self).filter, old(self).key@, consumed) == Ok::<
                        Seq<u8>,
                        DecryptionError,
                    >(after)
                    &&& before.len() <= after.len()
                    &&& before == after.take(before.len() as int)
                    &&& final(output)@ == old(output)@ + after.skip(before.len() as int)
                },
                Err(error) => decrypted_in_pieces(old(self).filter, old(self).key@, consumed)
                    == Err::<Seq<u8>, DecryptionError>(error),
            },
    {
        proof {
            let (state, early) = updated(self.start(), consumed);
            if let Ok(rest) = rest_of(self.filter, state) {
                assert((early + rest).take(early.len() as int) =~= early);
                assert((early + rest).skip(early.len() as int) =~= rest);
            }
        }
        let r = self.state.finish(output);
        if r.is_ok() {
            self.finished = true;
        }
        r
    }
}

proof fn lemma_nothing_consumed(method: Seq<u8>, key: Seq<u8>)
    ensures
        updated(decryption_start(method, key), Seq::empty()) == (
            decryption_start(method, key),
            Seq::<u8>::empty(),
        ),
{
    let start = decryption_start(method, key);
    match start {
        DecryptionState::Identity => {},
        DecryptionState::Rc4(at) => {
            assert(updated(start, Seq::empty()).1 =~= Seq::<u8>::empty());
        },
        DecryptionState::Aes(aes) => {
            assert(aes.pending + Seq::<u8>::empty() =~= aes.pending);
        },
        DecryptionState::Whole { ciphertext, .. } => {
            assert(ciphertext + Seq::<u8>::empty() =~= ciphertext);
        },
    }
}

/// A stream's content read from the source a chunk at a time, and decrypted on the way.
pub struct SourceBytes<'a, S: RandomAccessSource, F: CryptFilter, K: ObjectDecryption> {
    document: &'a LazyDocument<S, K>,
    start: usize,
    len: usize,
    position: usize,
    decryption: Option<Decryption<F>>,
}

impl<'a, S: RandomAccessSource, F: CryptFilter + Copy, K: ObjectDecryption> SourceBytes<'a, S, F, K> {
    /// The content as the file stores it.
    pub closed spec fn stored(&self) -> Seq<u8> {
        self.document.file().bytes.subrange(self.start as int, self.start + self.len)
    }

    pub closed spec fn decryption(&self) -> Option<Decryption<F>> {
        self.decryption
    }

    /// The `len` bytes of `document` from `start` on, decrypted with `decryption` or in the clear.
    pub fn new(
        document: &'a LazyDocument<S, K>,
        start: usize,
        len: usize,
        decryption: Option<Decryption<F>>,
    ) -> (r: Self)
        requires
            start + len <= document.file().bytes.len(),
            decryption matches Some(d) ==> d.fits(len as nat) && d.has_consumed(Seq::empty())
                && !d.is_finished(),
        ensures
            r.well_formed(),
            r.stored() == document.file().bytes.subrange(start as int, start + len),
            r.whole() == match decryption {
                None => Ok(r.stored()),
                Some(d) => match decrypted_in_pieces(d.filter(), d.key(), r.stored()) {
                    Ok(plaintext) => Ok(plaintext),
                    Err(error) => Err(Error::Decryption(error)),
                },
            },
            r.can_fail() == document.source_can_fail(),
            r.given().len() == 0,
    {
        let bytes = SourceBytes { document, start, len, position: 0, decryption };
        proof {
            assert(bytes.consumed() =~= Seq::<u8>::empty());
            if let Some(ref d) = bytes.decryption {
                lemma_nothing_consumed(d.filter.method_name(), d.key@);
            }
        }
        bytes
    }

    /// The ciphertext read so far.
    spec fn consumed(&self) -> Seq<u8> {
        self.stored().take(self.position as int)
    }
}

impl<'a, S: RandomAccessSource, F: CryptFilter + Copy, K: ObjectDecryption> StoredBytes for SourceBytes<
    'a,
    S,
    F,
    K,
> {
    closed spec fn whole(&self) -> std::result::Result<Seq<u8>, Error> {
        match self.decryption {
            None => Ok(self.stored()),
            Some(d) => match decrypted_in_pieces(d.filter, d.key@, self.stored()) {
                Ok(plaintext) => Ok(plaintext),
                Err(error) => Err(Error::Decryption(error)),
            },
        }
    }

    closed spec fn given(&self) -> Seq<u8> {
        match self.decryption {
            None => self.consumed(),
            Some(d) => d.plaintext(self.consumed()),
        }
    }

    closed spec fn chunks_left(&self) -> nat {
        let end = match self.decryption {
            Some(d) if !d.finished => 1int,
            _ => 0int,
        };
        (self.len - self.position + end) as nat
    }

    closed spec fn can_fail(&self) -> bool {
        self.document.source_can_fail()
    }

    closed spec fn well_formed(&self) -> bool {
        &&& self.start + self.len <= self.document.file().bytes.len()
        &&& self.position <= self.len
        &&& self.decryption matches Some(d) ==> {
            &&& d.fits(self.len as nat)
            &&& d.has_consumed(self.consumed())
            &&& d.finished ==> self.position == self.len && decrypted_in_pieces(
                d.filter,
                d.key@,
                self.stored(),
            ) is Ok
        }
    }

    #[verifier::rlimit(60)]
    #[verifier::spinoff_prover]
    fn read_chunk(&mut self, output: &mut Vec<u8>) -> (r: Result<bool>) {
        let ghost consumed = self.consumed();
        let ghost given = self.given();
        if self.position == self.len {
            assert(consumed =~= self.stored());
            return match &mut self.decryption {
                Some(decryption) => if decryption.finished {
                    Ok(false)
                } else {
                    match decryption.finish(Ghost(consumed), output) {
                        Ok(_) => Ok(true),
                        Err(error) => Err(Error::Decryption(error)),
                    }
                },
                None => Ok(false),
            };
        }
        let _byte_len = self.document.byte_len();
        let end = if self.len - self.position > CHUNK {
            self.position + CHUNK
        } else {
            self.len
        };
        let bytes = match self.document.read_bytes(self.start + self.position, self.start + end) {
            Ok(bytes) => bytes,
            Err(error) => {
                return Err(error);
            },
        };
        self.position = end;
        assert(self.consumed() =~= consumed + bytes@);
        match &mut self.decryption {
            Some(decryption) => {
                decryption.consume(Ghost(consumed), bytes.as_slice(), output);
            },
            None => {
                output.extend_from_slice(bytes.as_slice());
                assert((consumed + bytes@).take(consumed.len() as int) =~= consumed);
                assert((consumed + bytes@).skip(consumed.len() as int) =~= bytes@);
            },
        }
        Ok(true)
    }

    fn rewind(&mut self) -> (r: Result<()>) {
        let len = self.len;
        let ghost stored = self.stored();
        self.position = 0;
        assert(self.consumed() =~= Seq::<u8>::empty());
        if let Some(decryption) = &mut self.decryption {
            proof {
                lemma_nothing_consumed(decryption.filter.method_name(), decryption.key@);
            }
            let again = StreamDecryption::new(
                decryption.filter,
                to_vec(decryption.key.as_slice()),
                len,
            );
            match again {
                Ok(state) => {
                    decryption.state = state;
                    decryption.finished = false;
                },
                Err(error) => {
                    return Err(Error::Decryption(error));
                },
            }
        }
        Ok(())
    }
}

/// A stream's stored content: read from the source a chunk at a time, or held in memory.
pub enum StoredContent<'a, S: RandomAccessSource, F: CryptFilter, K: ObjectDecryption> {
    Read(SourceBytes<'a, S, F, K>),
    Held(Vec<u8>),
}

/// What a stream's stored bytes stand for: what `decryption`, a filter and its key, decrypts them
/// to, or the bytes as they are stored when there is none, or when they cannot be decrypted.
pub open spec fn plain_content<F: CryptFilter>(
    decryption: Option<(F, Seq<u8>)>,
    stored: Seq<u8>,
) -> std::result::Result<Seq<u8>, Error> {
    match decryption {
        Some((filter, key)) => if start_error(filter.method_name(), key, stored.len()) is Some {
            Ok(stored)
        } else {
            match decrypted_in_pieces(filter, key, stored) {
                Ok(plaintext) => Ok(plaintext),
                Err(error) => Err(Error::Decryption(error)),
            }
        },
        None => Ok(stored),
    }
}

impl<S: RandomAccessSource, K: ObjectDecryption> LazyDocument<S, K> {
    /// Stream `id`: its dictionary, and its stored content, decrypted on the way by `decryption`, a
    /// filter and its key. Content that cannot be decrypted is read as it is stored. `None` when
    /// `id` is no stream.
    pub fn open_content<F: CryptFilter + Copy>(
        &self,
        id: ObjectId,
        decryption: Option<(F, Vec<u8>)>,
    ) -> (r: Result<Option<(Dictionary, StoredContent<'_, S, F, K>)>>)
        requires
            decryption matches Some((filter, key)) ==> filter.takes(key@) && (filter.method_name()
                == crate::bytes::key("V2"@) ==> 1 <= key@.len() <= 256),
        ensures
            match r {
                Ok(Some((dict, content))) => match (content, peeked(self.file(), id)) {
                    (StoredContent::Read(bytes), PeekedModel::Stream(place)) => {
                        &&& dict@ == place.dict
                        &&& bytes.well_formed()
                        &&& bytes.given().len() == 0
                        &&& bytes.stored() == self.file().bytes.subrange(
                            place.start,
                            place.start + place.len,
                        )
                        &&& bytes.whole() == plain_content(
                            match decryption {
                                Some((filter, key)) => Some((filter, key@)),
                                None => None,
                            },
                            bytes.stored(),
                        )
                        &&& bytes.can_fail() == self.source_can_fail()
                    },
                    (StoredContent::Held(bytes), PeekedModel::Object(value)) => value
                        == Value::Stream(dict@, bytes@),
                    _ => false,
                },
                Ok(None) => match peeked(self.file(), id) {
                    PeekedModel::Stream(_) => false,
                    PeekedModel::Object(value) => !(value is Stream),
                    PeekedModel::Missing => true,
                },
                Err(error) => source_failure(error, self.source_can_fail()),
            },
    {
        match self.peek(id) {
            Ok(Peeked::Stream { dict, start, len }) => {
                let decryption = match decryption {
                    Some((filter, key)) => Decryption::new(filter, key, len).ok(),
                    None => None,
                };
                let bytes = SourceBytes::new(self, start, len, decryption);
                Ok(Some((dict, StoredContent::Read(bytes))))
            },
            Ok(Peeked::Object(Object::Stream(stream))) => Ok(
                Some((stream.dict, StoredContent::Held(stream.content))),
            ),
            Ok(_) => Ok(None),
            Err(error) => Err(error),
        }
    }

    /// Stream `id`, whose content is read a chunk at a time, or `None` when `id` is no stream.
    pub fn read_stream(&self, id: ObjectId) -> (r: Result<Option<Stream>>)
        ensures
            match r {
                Ok(Some(stream)) => opened(self.file(), id) == Some(
                    Value::Stream(stream.dict@, stream.content@),
                ),
                Ok(None) => opened(self.file(), id) is None,
                Err(error) => source_failure(error, self.source_can_fail()),
            },
    {
        let in_the_clear: Option<(Rc4CryptFilter, Vec<u8>)> = None;
        match self.open_content(id, in_the_clear) {
            Ok(Some((dict, StoredContent::Held(content)))) => Ok(Some(Stream { dict, content })),
            Ok(Some((dict, StoredContent::Read(bytes)))) => match read_all(bytes) {
                Ok(content) => match self.decrypt(id, Object::Stream(Stream { dict, content })) {
                    Object::Stream(stream) => Ok(Some(stream)),
                    _ => Ok(None),
                },
                Err(error) => Err(error),
            },
            Ok(None) => Ok(None),
            Err(error) => Err(error),
        }
    }
}

} // verus!
