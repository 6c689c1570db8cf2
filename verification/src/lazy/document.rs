//! A PDF read from a source one object at a time.

use std::borrow::Cow;
use std::collections::BTreeMap;

use vstd::cell::invcell::InvCell;
use vstd::predicate::Predicate;
use vstd::prelude::*;

use crate::document::{Document, DEREF_LIMIT};
use crate::encryption::security::{
    plain_by, unlock, unlocking, NoDecryption, ObjectDecryption, SecurityHandler,
};
use crate::error::{Error, ParseError, Result};
use crate::ids::{lemma_packed, pack, packed};
use crate::lazy::fifo_cache::{cached, lemma_cache_keeps_within_capacity, FifoCache};
use crate::lazy::file::{
    lemma_trailer_is_without_prev, opened, size_limit, LazyFile, LoadOptions, ReadOptions, Structure, MAX_WINDOW,
};
use crate::lazy::source::RandomAccessSource;
use crate::object::{
    dictionary_of, distinct_keys, entry, integer_of, named_entry, reference_in, value, wrong_kind, Dictionary,
    Entries, Object, ObjectId, ObjectKind, Stream, Value,
};
use crate::object_stream::{members_of, ObjectStream, StreamMembers};
use crate::page_order::{lemma_same_objects_have_the_same_pages, pages_end};
use crate::page_tree::{number_pages, numbered, ordered_pages, page_order};
use crate::parser::indirect::{
    content_of_stream, head_of, indirect_head, stream_content, HeadModel, ObjectHead,
};
use crate::stream_filters::lemma_decode_errors;
use crate::resolver::{found, source_failure, Model, ObjectResolver};
use crate::xref::{is_greatest, Xref, XrefEntry};

verus! {

/// The smallest window read for an object, so that most objects cost one read.
pub const MIN_OBJECT_WINDOW: usize = 4096;

/// Non-stream objects kept after they are read, oldest out first.
pub const OBJECT_CACHE_ENTRIES: usize = 4096;

/// Decoded object streams kept after they are read. Members of one stream tend to be read
/// together, and decoding a stream costs a read and a decompression.
pub const OBJECT_STREAM_CACHE_ENTRIES: usize = 16;

/// A PDF with what its cross-reference data says.
pub struct FileModel {
    pub bytes: Seq<u8>,
    pub structure: Structure,
    /// The most bytes that a filter of an object stream may give.
    pub limit: usize,
    /// How objects are decrypted, if they are.
    pub decryption: Option<spec_fn(ObjectId, Value) -> Value>,
    /// The object that is the encryption dictionary, which is not encrypted.
    pub encryption_id: Option<ObjectId>,
}

/// Object `id`, which stands for `value` in the file, once it is decrypted.
pub open spec fn decrypted(file: FileModel, id: ObjectId, value: Value) -> Value {
    match file.decryption {
        Some(plain) => if file.encryption_id == Some(id) {
            value
        } else {
            plain(id, value)
        },
        None => value,
    }
}

/// Whether an object in use stands at `offset`.
pub open spec fn is_object_offset(table: Map<u32, XrefEntry>, offset: int) -> bool {
    exists|id: u32|
        table.contains_key(id) && (#[trigger] table[id] matches XrefEntry::Normal { offset: o, .. }
            && o == offset)
}

/// Whether something starts at `bound` that the object at `offset` must end before.
pub open spec fn bounds_object(structure: Structure, offset: int, bound: int) -> bool {
    bound > offset && (is_object_offset(structure.table, bound) || bound == structure.xref_start)
}

/// Whether the object at `offset` ends at `end`: at the next object or the cross-reference section,
/// whichever comes first, or else at the end of the file.
pub open spec fn is_object_end(file: FileModel, offset: int, end: int) -> bool {
    &&& end <= file.bytes.len()
    &&& forall|bound: int| #[trigger] bounds_object(file.structure, offset, bound) ==> end <= bound
    &&& end == file.bytes.len() || bounds_object(file.structure, offset, end)
}

/// Where the object at `offset` ends.
pub open spec fn object_end(file: FileModel, offset: int) -> int {
    choose|end: int| is_object_end(file, offset, end)
}

/// The first window read for the object at `offset`: up to its end, but no less than
/// [`MIN_OBJECT_WINDOW`].
pub open spec fn first_window(file: FileModel, offset: int) -> int {
    let end = object_end(file, offset);
    let least = if end > offset + MIN_OBJECT_WINDOW {
        end
    } else {
        offset + MIN_OBJECT_WINDOW
    };
    if least < file.bytes.len() {
        least
    } else {
        file.bytes.len() as int
    }
}

/// Where the next larger window for the object at `offset` ends.
pub open spec fn wider(len: nat, offset: int, end: int) -> int {
    if offset + (end - offset) * 4 < len {
        offset + (end - offset) * 4
    } else {
        len as int
    }
}

/// Whether a larger window may hold what one that ends at `end` does not.
pub open spec fn can_widen(len: nat, offset: int, end: int) -> bool {
    offset < end < len && end - offset < MAX_WINDOW
}

/// The head of object `id` in the window from `offset` to `end`.
pub open spec fn head_in(file: FileModel, id: ObjectId, offset: int, end: int) -> Option<HeadModel> {
    match head_of(file.bytes.subrange(offset, end)) {
        Some((found, head)) => if found == id {
            Some(head)
        } else {
            None
        },
        None => None,
    }
}

/// The integer that object `id` at `offset` is.
pub open spec fn integer_in(file: FileModel, id: ObjectId, offset: int, end: int) -> Option<i64>
    decreases file.bytes.len() - end,
{
    match head_in(file, id, offset, end) {
        Some(HeadModel::Object(value)) => integer_of(value),
        Some(HeadModel::Stream { .. }) => None,
        None => if can_widen(file.bytes.len(), offset, end) {
            integer_in(file, id, offset, wider(file.bytes.len(), offset, end))
        } else {
            None
        },
    }
}

/// The integer that object `id` is, if it stands in the file by itself.
pub open spec fn integer_object(file: FileModel, id: ObjectId) -> Option<i64> {
    if file.structure.table.contains_key(id.0) {
        match file.structure.table[id.0] {
            XrefEntry::Normal { offset, generation } => if generation == id.1 && offset
                < file.bytes.len() {
                integer_in(file, id, offset as int, first_window(file, offset as int))
            } else {
                None
            },
            _ => None,
        }
    } else {
        None
    }
}

/// How many more object streams can be read, one for the sake of another.
pub open spec fn streams_left(path: Seq<u32>) -> int {
    0x1_0000_0000 - path.len()
}

/// The length that a stream's dictionary gives, in it or by another object, while the object streams
/// of `path` are read.
pub open spec fn length_of(file: FileModel, dict: Entries, path: Seq<u32>) -> Option<i64>
    decreases streams_left(path), 5int, 0int,
{
    match named_entry(dict, "Length"@) {
        Some(Value::Integer(length)) => Some(length),
        Some(Value::Reference(id)) => if file.structure.table.contains_key(id.0) {
            match file.structure.table[id.0] {
                XrefEntry::Compressed { container, .. } => match compressed_within(
                    file,
                    id,
                    container,
                    path,
                ) {
                    Ok(value) => integer_of(value),
                    Err(_) => None,
                },
                _ => integer_object(file, id),
            }
        } else {
            None
        },
        _ => None,
    }
}

/// Object `id` in the window from `offset` to `end`, while the object streams of `path` are read.
pub open spec fn object_in_window(
    file: FileModel,
    id: ObjectId,
    offset: int,
    end: int,
    path: Seq<u32>,
) -> Option<Value>
    decreases streams_left(path), 6int, 0int,
{
    match head_in(file, id, offset, end) {
        Some(HeadModel::Object(value)) => Some(value),
        Some(HeadModel::Stream { dict, start }) => match stream_content(
            file.bytes.subrange(offset, end),
            start,
            length_of(file, dict, path),
            content_limit(file, offset, end),
        ) {
            Some(content) => Some(Value::Stream(dict, content)),
            None => None,
        },
        None => None,
    }
}

/// How far into a window the content of a stream whose length is wrong is looked for.
pub open spec fn content_limit(file: FileModel, offset: int, end: int) -> int {
    if object_end(file, offset) < end {
        object_end(file, offset) - offset
    } else {
        end - offset
    }
}

/// What object stream number `container` holds, read while those of `path` are: an object stream that
/// takes itself to be read cannot be.
pub open spec fn members_within(file: FileModel, container: u32, path: Seq<u32>) -> std::result::Result<
    StreamMembers,
    Error,
>
    decreases streams_left(path), 3int, 0int,
{
    let id: ObjectId = (container, 0);
    if path.contains(container) || streams_left(path) <= 0 {
        Err(Error::ReferenceCycle(id))
    } else {
        match object_within(file, id, path.push(container)) {
            Ok(Value::Stream(dict, content)) => members_of(dict, content, file.limit),
            Ok(value) => Err(wrong_kind(ObjectKind::Stream, value)),
            Err(error) => Err(error),
        }
    }
}

/// Object `id`, which stands in object stream number `container`, while those of `path` are read.
pub open spec fn compressed_within(
    file: FileModel,
    id: ObjectId,
    container: u32,
    path: Seq<u32>,
) -> std::result::Result<Value, Error>
    decreases streams_left(path), 4int, 0int,
{
    match members_within(file, container, path) {
        Ok(members) => match members.object(id.0) {
            Some(value) => if id.1 == 0 {
                Ok(value)
            } else {
                Err(Error::MissingXrefEntry)
            },
            None => Err(Error::MissingXrefEntry),
        },
        Err(error) => Err(error),
    }
}

/// Object `id` in the window from `offset` to `end`, or in a larger one while it cannot be parsed, while
/// the object streams of `path` are read. The content of a stream whose length is wrong stops at the
/// next object.
pub open spec fn object_in(
    file: FileModel,
    id: ObjectId,
    offset: int,
    end: int,
    path: Seq<u32>,
) -> std::result::Result<Value, Error>
    decreases streams_left(path), 7int, file.bytes.len() - end,
{
    match object_in_window(file, id, offset, end, path) {
        Some(value) => Ok(value),
        None => if can_widen(file.bytes.len(), offset, end) {
            object_in(file, id, offset, wider(file.bytes.len(), offset, end), path)
        } else {
            Err(Error::Parse(ParseError::IndirectObject))
        },
    }
}

/// Object `id`, without following an object that is itself a reference, while the object streams of
/// `path` are read.
pub open spec fn object_within(file: FileModel, id: ObjectId, path: Seq<u32>) -> std::result::Result<
    Value,
    Error,
>
    decreases streams_left(path), 8int, 0int,
{
    if file.structure.table.contains_key(id.0) {
        match file.structure.table[id.0] {
            XrefEntry::Compressed { container, .. } => compressed_within(file, id, container, path),
            XrefEntry::Normal { offset, generation } => if generation != id.1 {
                Err(Error::MissingXrefEntry)
            } else if offset >= file.bytes.len() {
                Err(Error::InvalidOffset(offset as usize))
            } else {
                match object_in(
                    file,
                    id,
                    offset as int,
                    first_window(file, offset as int),
                    path,
                ) {
                    Ok(value) => Ok(decrypted(file, id, value)),
                    Err(error) => Err(error),
                }
            },
            XrefEntry::Free => Err(Error::MissingXrefEntry),
        }
    } else {
        Err(Error::MissingXrefEntry)
    }
}

/// What object stream number `container` holds.
pub open spec fn container_members(file: FileModel, container: u32) -> std::result::Result<
    StreamMembers,
    Error,
> {
    members_within(file, container, Seq::empty())
}

/// Object `id`, without following an object that is itself a reference.
pub open spec fn stored_object(file: FileModel, id: ObjectId) -> std::result::Result<Value, Error> {
    object_within(file, id, Seq::empty())
}

/// The encryption dictionary of a file, if it is an object of its own, or why it cannot be read.
pub open spec fn encryption_dictionary(file: FileModel) -> std::result::Result<Option<Value>, Error> {
    match named_entry(file.structure.trailer, "Encrypt"@) {
        Some(Value::Reference(id)) => match stored_object(file, id) {
            Ok(value) => Ok(Some(value)),
            Err(error) => Err(error),
        },
        _ => Ok(None),
    }
}

/// Why decryption of `file`, which is not decrypted yet, cannot be set up, if it cannot.
pub open spec fn setup_error<K: ObjectDecryption, H: SecurityHandler<K>>(
    file: FileModel,
    handler: H,
    password: Option<Seq<char>>,
) -> Option<Error> {
    if named_entry(file.structure.trailer, "Encrypt"@) is None {
        None
    } else {
        match encryption_dictionary(file) {
            Ok(dictionary) => match unlocking::<K, H>(
                handler,
                file.structure.trailer,
                dictionary,
                password,
            ) {
                Ok(_) => None,
                Err(error) => Some(error),
            },
            Err(error) => Some(error),
        }
    }
}

/// Whether `document` is `file` with decryption set up.
pub open spec fn is_set_up<S: RandomAccessSource, K: ObjectDecryption, H: SecurityHandler<K>>(
    file: FileModel,
    handler: H,
    password: Option<Seq<char>>,
    document: LazyDocument<S, K>,
) -> bool {
    &&& setup_error::<K, H>(file, handler, password) is None
    &&& if named_entry(file.structure.trailer, "Encrypt"@) is None {
        document.unlocked() is None && document.file() == file
    } else {
        let unlocked = unlocking::<K, H>(
            handler,
            file.structure.trailer,
            encryption_dictionary(file)->Ok_0,
            password,
        )->Ok_0;
        &&& document.unlocked() == unlocked
        &&& document.file() == (FileModel {
            decryption: plain_by(unlocked),
            encryption_id: reference_in(named_entry(file.structure.trailer, "Encrypt"@)),
            ..file
        })
    }
}

/// Whether `r` is what opening `source` gives: the document with its decryption set up, or an error
/// that is a failure of the source or says why it cannot be opened.
pub open spec fn is_opened<S: RandomAccessSource, K: ObjectDecryption, H: SecurityHandler<K>>(
    source: S,
    options: LoadOptions<H>,
    r: Result<LazyDocument<S, K>>,
) -> bool {
    match opened(source.content(), options.reading()) {
        Ok((version, base, structure)) => {
            let file = FileModel {
                bytes: source.content().skip(base),
                structure,
                limit: size_limit(options.reading()),
                decryption: None,
                encryption_id: None,
            };
            match r {
                Ok(document) => {
                    &&& document.well_formed()
                    &&& document.version_text() == version
                    &&& document.source_can_fail() == source.can_fail()
                    &&& is_set_up::<S, K, H>(
                        file,
                        options.security,
                        options.password_text(),
                        document,
                    )
                },
                Err(error) => source_failure(error, source.can_fail()) || setup_error::<K, H>(
                    file,
                    options.security,
                    options.password_text(),
                ) == Some(error),
            }
        },
        Err(expected) => match r {
            Ok(_) => false,
            Err(error) => error == expected || source_failure(error, source.can_fail()),
        },
    }
}

/// Object `id`, following an object that is itself a reference through no more than `left` more.
pub open spec fn followed_object(file: FileModel, id: ObjectId, left: nat) -> std::result::Result<
    Value,
    Error,
>
    decreases left,
{
    match stored_object(file, id) {
        Ok(Value::Reference(next)) => if left == 0 {
            Err(Error::ReferenceLimit)
        } else {
            followed_object(file, next, (left - 1) as nat)
        },
        result => result,
    }
}

/// What each object stands for once references are followed.
pub open spec fn readable_objects(file: FileModel) -> Map<ObjectId, Value> {
    Map::new(
        |id: ObjectId| followed_object(file, id, DEREF_LIMIT as nat) is Ok,
        |id: ObjectId| followed_object(file, id, DEREF_LIMIT as nat)->Ok_0,
    )
}

/// Whether a cross-reference entry is that of an object in use.
pub open spec fn in_use(entry: XrefEntry) -> bool {
    !(entry is Free)
}

/// The numbers of the objects in use.
pub open spec fn used_ids(table: Map<u32, XrefEntry>) -> Set<u32> {
    Set::new(|id: u32| table.contains_key(id) && in_use(table[id]))
}

proof fn lemma_one_object_end(file: FileModel, offset: int, a: int, b: int)
    requires
        is_object_end(file, offset, a),
        is_object_end(file, offset, b),
    ensures
        a == b,
{
    if a < b {
        assert(bounds_object(file.structure, offset, a));
    }
    if b < a {
        assert(bounds_object(file.structure, offset, b));
    }
}

/// What may be kept of the objects of a file: what they are.
pub struct ObjectsKept {
    pub file: FileModel,
}

impl Predicate<FifoCache<Object>> for ObjectsKept {
    open spec fn predicate(&self, cache: FifoCache<Object>) -> bool {
        &&& cache.well_formed()
        &&& cache.capacity() == OBJECT_CACHE_ENTRIES
        &&& forall|id: ObjectId| #[trigger]
            cache@.entries.contains_key(packed(id)) ==> stored_object(self.file, id) == Ok::<
                Value,
                Error,
            >(cache@.entries[packed(id)]@)
    }
}

/// What may be kept of the object streams of a file: what they hold.
pub struct StreamsKept {
    pub file: FileModel,
}

impl Predicate<FifoCache<ObjectStream>> for StreamsKept {
    open spec fn predicate(&self, cache: FifoCache<ObjectStream>) -> bool {
        &&& cache.well_formed()
        &&& cache.capacity() == OBJECT_STREAM_CACHE_ENTRIES
        &&& forall|container: u32| #[trigger]
            cache@.entries.contains_key(container as u64) ==> container_members(
                self.file,
                container,
            ) == Ok::<StreamMembers, Error>(cache@.entries[container as u64]@)
    }
}

/// Whether `number` is among `numbers`.
fn holds(numbers: &Vec<u32>, number: u32) -> (r: bool)
    ensures
        r == numbers@.contains(number),
{
    let mut i: usize = 0;
    while i < numbers.len()
        invariant
            i <= numbers@.len(),
            forall|j: int| 0 <= j < i ==> numbers@[j] != number,
        decreases numbers@.len() - i,
    {
        if numbers[i] == number {
            return true;
        }
        i += 1;
    }
    false
}

/// `numbers` with `number` behind them.
fn extended(numbers: &Vec<u32>, number: u32) -> (r: Vec<u32>)
    ensures
        r@ == numbers@.push(number),
{
    let mut more: Vec<u32> = Vec::new();
    while more.len() < numbers.len()
        invariant
            more@.len() <= numbers@.len(),
            more@ == numbers@.take(more@.len() as int),
        decreases numbers@.len() - more@.len(),
    {
        more.push(numbers[more.len()]);
        assert(more@ =~= numbers@.take(more@.len() as int));
    }
    assert(more@ =~= numbers@);
    more.push(number);
    more
}

/// `Vec<usize>::sort_unstable` sorts the numbers, and keeps each as often as it was there.
#[verifier::external_body]
fn sort_offsets(offsets: &mut Vec<usize>)
    ensures
        final(offsets)@.to_multiset() == old(offsets)@.to_multiset(),
        forall|i: int, j: int|
            0 <= i <= j < final(offsets)@.len() ==> final(offsets)@[i] <= final(offsets)@[j],
{
    offsets.sort_unstable();
}

/// Whether `offsets` are those of the objects in use, in order.
spec fn lists_offsets(table: Map<u32, XrefEntry>, offsets: Seq<usize>) -> bool {
    &&& forall|i: int, j: int| 0 <= i <= j < offsets.len() ==> offsets[i] <= offsets[j]
    &&& forall|i: int| 0 <= i < offsets.len() ==> is_object_offset(table, #[trigger] offsets[i] as int)
    &&& forall|offset: int| #[trigger]
        is_object_offset(table, offset) ==> exists|i: int|
            0 <= i < offsets.len() && #[trigger] offsets[i] == offset
}

/// The offsets of the objects in use, in order.
fn sorted_offsets(xref: &Xref) -> (r: Vec<usize>)
    requires
        xref.well_formed(),
    ensures
        lists_offsets(xref@, r@),
{
    let ids = xref.ids();
    let mut offsets: Vec<usize> = Vec::new();
    let mut i: usize = 0;
    while i < ids.len()
        invariant
            xref.well_formed(),
            ids@ == xref.listed(),
            i <= ids@.len(),
            forall|k: int|
                0 <= k < offsets@.len() ==> is_object_offset(xref@, #[trigger] offsets@[k] as int),
            forall|j: int|
                #![trigger ids@[j]]
                0 <= j < i && xref@[ids@[j]] is Normal ==> offsets@.contains(
                    xref@[ids@[j]]->Normal_offset as usize,
                ),
        decreases ids@.len() - i,
    {
        let id = ids[i];
        let ghost before = offsets@;
        assert(xref.listed().contains(id));
        if let Some(XrefEntry::Normal { offset, .. }) = xref.get(id) {
            assert(xref@[id] matches XrefEntry::Normal { offset: o, .. } && o == offset);
            assert(is_object_offset(xref@, offset as int));
            offsets.push(offset as usize);
            proof {
                assert(offsets@[before.len() as int] == offset as usize);
                assert forall|j: int|
                    #![trigger ids@[j]]
                    0 <= j < i + 1 && xref@[ids@[j]] is Normal implies offsets@.contains(
                    xref@[ids@[j]]->Normal_offset as usize,
                ) by {
                    if j < i {
                        let o = xref@[ids@[j]]->Normal_offset as usize;
                        let k = before.index_of(o);
                        assert(offsets@[k] == o);
                    }
                }
            }
        }
        i += 1;
    }
    let ghost unsorted = offsets@;
    sort_offsets(&mut offsets);
    proof {
        broadcast use vstd::seq_lib::group_to_multiset_ensures;

        assert forall|k: int| 0 <= k < offsets@.len() implies is_object_offset(
            xref@,
            #[trigger] offsets@[k] as int,
        ) by {
            assert(offsets@.to_multiset().count(offsets@[k]) > 0);
            assert(unsorted.contains(offsets@[k]));
            let m = unsorted.index_of(offsets@[k]);
            assert(is_object_offset(xref@, unsorted[m] as int));
        }
        assert forall|offset: int| #[trigger] is_object_offset(xref@, offset) implies exists|k: int|
            0 <= k < offsets@.len() && #[trigger] offsets@[k] == offset by {
            let id = choose|id: u32|
                xref@.contains_key(id) && (#[trigger] xref@[id] matches XrefEntry::Normal {
                    offset: o,
                    ..
                } && o == offset);
            assert(xref.listed().contains(id));
            let j = ids@.index_of(id);
            assert(ids@[j] == id);
            let o = offset as usize;
            assert(unsorted.contains(o));
            assert(offsets@.to_multiset().count(o) > 0);
            assert(offsets@.contains(o));
            let k = offsets@.index_of(o);
            assert(offsets@[k] == offset);
        }
    }
    offsets
}

/// A PDF read from a [`RandomAccessSource`] one object at a time. See the
/// [module docs](crate::lazy).
///
/// Objects are returned owned. Recently read objects are cached, within fixed bounds.
pub struct LazyDocument<S: RandomAccessSource, K: ObjectDecryption = NoDecryption> {
    file: LazyFile<S>,
    version: String,
    trailer: Dictionary,
    reference_table: Xref,
    /// Sorted offsets of in-use objects, which bound each object's bytes.
    normal_offsets: Vec<usize>,
    xref_start: usize,
    /// The most bytes that a filter of an object stream may give.
    limit: usize,
    decryption: Option<K>,
    encryption_id: Option<ObjectId>,
    objects: InvCell<FifoCache<Object>, ObjectsKept>,
    object_streams: InvCell<FifoCache<ObjectStream>, StreamsKept>,
}

impl<S: RandomAccessSource, K: ObjectDecryption> LazyDocument<S, K> {
    /// The PDF, with what its cross-reference data says.
    pub closed spec fn file(&self) -> FileModel {
        FileModel {
            bytes: self.file.bytes(),
            structure: Structure {
                xref_start: self.xref_start as int,
                table: self.reference_table@,
                trailer: self.trailer@,
            },
            limit: self.limit,
            decryption: plain_by(self.decryption),
            encryption_id: self.encryption_id,
        }
    }

    /// What decrypts the document, if a password opened it.
    pub closed spec fn unlocked(&self) -> Option<K> {
        self.decryption
    }

    /// Whether reading the source can fail.
    pub closed spec fn source_can_fail(&self) -> bool {
        self.file.source().can_fail()
    }

    pub closed spec fn version_text(&self) -> Seq<char> {
        self.version@
    }

    #[verifier::type_invariant]
    pub closed spec fn well_formed(&self) -> bool {
        &&& self.file.well_formed()
        &&& self.reference_table.well_formed()
        &&& self.reference_table.declared_size() >= 1
        &&& is_greatest(
            self.reference_table@.dom(),
            (self.reference_table.declared_size() - 1) as u32,
        )
        &&& lists_offsets(self.reference_table@, self.normal_offsets@)
        &&& distinct_keys(self.trailer@)
        &&& named_entry(self.trailer@, "Prev"@) is None
        &&& self.objects.predicate() == (ObjectsKept { file: self.file() })
        &&& self.object_streams.predicate() == (StreamsKept { file: self.file() })
    }

    /// Where the object at `offset` ends.
    fn object_end(&self, offset: usize) -> (r: usize)
        requires
            self.well_formed(),
        ensures
            r == object_end(self.file(), offset as int),
            is_object_end(self.file(), offset as int, r as int),
    {
        let len = self.file.len();
        let mut low: usize = 0;
        let mut high: usize = self.normal_offsets.len();
        while low < high
            invariant
                lists_offsets(self.reference_table@, self.normal_offsets@),
                low <= high <= self.normal_offsets@.len(),
                forall|i: int| 0 <= i < low ==> #[trigger] self.normal_offsets@[i] <= offset,
                forall|i: int|
                    high <= i < self.normal_offsets@.len() ==> #[trigger] self.normal_offsets@[i]
                        > offset,
            decreases high - low,
        {
            let middle = low + (high - low) / 2;
            if self.normal_offsets[middle] <= offset {
                low = middle + 1;
            } else {
                high = middle;
            }
        }
        let mut end = len;
        if low < self.normal_offsets.len() {
            let next = self.normal_offsets[low];
            if next < end {
                end = next;
            }
        }
        if self.xref_start > offset && self.xref_start < end {
            end = self.xref_start;
        }
        proof {
            let file = self.file();
            assert forall|bound: int| #[trigger]
                bounds_object(file.structure, offset as int, bound) implies end <= bound by {
                if is_object_offset(file.structure.table, bound) {
                    let i = choose|i: int|
                        0 <= i < self.normal_offsets@.len() && #[trigger] self.normal_offsets@[i]
                            == bound;
                    assert(i >= low);
                    assert(self.normal_offsets@[low as int] <= self.normal_offsets@[i]);
                }
            }
            if low < self.normal_offsets@.len() {
                assert(is_object_offset(
                    file.structure.table,
                    self.normal_offsets@[low as int] as int,
                ));
            }
            assert(is_object_end(file, offset as int, end as int));
            lemma_one_object_end(
                file,
                offset as int,
                end as int,
                object_end(file, offset as int),
            );
        }
        end
    }

    /// Where the first window for the object at `offset` ends.
    fn first_window(&self, offset: usize) -> (r: usize)
        requires
            self.well_formed(),
            offset < self.file().bytes.len(),
        ensures
            r == first_window(self.file(), offset as int),
            offset < r <= self.file().bytes.len(),
    {
        let end = self.object_end(offset);
        let len = self.file.len();
        let least = if len - offset > MIN_OBJECT_WINDOW {
            offset + MIN_OBJECT_WINDOW
        } else {
            len
        };
        if end > least {
            end
        } else {
            least
        }
    }

    /// Where the next larger window for the object at `offset` ends, if there is to be one.
    fn widen(&self, offset: usize, end: usize) -> (r: Option<usize>)
        requires
            self.well_formed(),
            offset < end <= self.file().bytes.len(),
        ensures
            match r {
                Some(wide) => can_widen(self.file().bytes.len(), offset as int, end as int) && wide
                    == wider(self.file().bytes.len(), offset as int, end as int) && end < wide
                    <= self.file().bytes.len(),
                None => !can_widen(self.file().bytes.len(), offset as int, end as int),
            },
    {
        let len = self.file.len();
        if end < len && end - offset < MAX_WINDOW {
            let window = (end - offset) * 4;
            if len - offset > window {
                Some(offset + window)
            } else {
                Some(len)
            }
        } else {
            None
        }
    }

    /// The head of object `id` in the window from `offset` to `end`, with the bytes of the window.
    fn head(&self, id: ObjectId, offset: usize, end: usize) -> (r: Result<
        Option<(Vec<u8>, ObjectHead)>,
    >)
        requires
            self.well_formed(),
            offset <= end <= self.file().bytes.len(),
        ensures
            match r {
                Ok(Some((bytes, head))) => {
                    &&& head_in(self.file(), id, offset as int, end as int) == Some(head.model())
                    &&& bytes@ == self.file().bytes.subrange(offset as int, end as int)
                    &&& head matches ObjectHead::Stream { start, .. } ==> start <= bytes@.len()
                },
                Ok(None) => head_in(self.file(), id, offset as int, end as int) is None,
                Err(error) => source_failure(error, self.source_can_fail()),
            },
    {
        let bytes = match self.file.read(offset, end) {
            Ok(bytes) => bytes,
            Err(error) => {
                return Err(error);
            },
        };
        match indirect_head(bytes.as_slice()) {
            Some((found, head)) => if found.0 == id.0 && found.1 == id.1 {
                Ok(Some((bytes, head)))
            } else {
                Ok(None)
            },
            None => Ok(None),
        }
    }

    /// The integer that object `id` is, if it stands in the file by itself.
    fn integer_object(&self, id: ObjectId) -> (r: Result<Option<i64>>)
        requires
            self.well_formed(),
        ensures
            match r {
                Ok(integer) => integer == integer_object(self.file(), id),
                Err(error) => source_failure(error, self.source_can_fail()),
            },
    {
        let offset = match self.reference_table.get(id.0) {
            Some(XrefEntry::Normal { offset, generation }) => {
                if generation != id.1 || offset as usize >= self.file.len() {
                    return Ok(None);
                }
                offset as usize
            },
            _ => {
                return Ok(None);
            },
        };
        let ghost file = self.file();
        let mut end = self.first_window(offset);
        loop
            invariant
                self.well_formed(),
                file == self.file(),
                offset < end <= file.bytes.len(),
                integer_object(file, id) == integer_in(file, id, offset as int, end as int),
            decreases file.bytes.len() - end,
        {
            match self.head(id, offset, end) {
                Ok(Some((_, ObjectHead::Object(object)))) => {
                    return Ok(object.as_i64().ok());
                },
                Ok(Some((_, ObjectHead::Stream { .. }))) => {
                    return Ok(None);
                },
                Ok(None) => match self.widen(offset, end) {
                    Some(wide) => {
                        end = wide;
                    },
                    None => {
                        return Ok(None);
                    },
                },
                Err(error) => {
                    return Err(error);
                },
            }
        }
    }

    /// The length that the dictionary of a stream gives, in it or by another object.
    fn length_of(&self, dict: &Dictionary, path: &Vec<u32>) -> (r: Result<Option<i64>>)
        requires
            self.well_formed(),
        ensures
            match r {
                Ok(length) => length == length_of(self.file(), dict@, path@),
                Err(error) => source_failure(error, self.source_can_fail()),
            },
        decreases streams_left(path@), 5int, 0int,
    {
        match dict.named("Length") {
            Some(Object::Integer(length)) => Ok(Some(*length)),
            Some(Object::Reference(id)) => match self.reference_table.get(id.0) {
                Some(XrefEntry::Compressed { container, .. }) => match self.compressed_object(
                    *id,
                    container,
                    path,
                ) {
                    Ok(object) => Ok(object.as_i64().ok()),
                    Err(Error::IO(error)) => Err(Error::IO(error)),
                    Err(_) => Ok(None),
                },
                Some(_) => self.integer_object(*id),
                None => Ok(None),
            },
            _ => Ok(None),
        }
    }

    /// The object that `head` is the head of, in a window of the file from `offset` to `end`, where
    /// `length` is how long a stream is. `None` when the window does not hold it.
    fn complete(
        &self,
        bytes: &Vec<u8>,
        head: ObjectHead,
        length: Option<i64>,
        offset: usize,
        end: usize,
    ) -> (r: Option<Object>)
        requires
            self.well_formed(),
            offset < end <= self.file().bytes.len(),
            bytes@ == self.file().bytes.subrange(offset as int, end as int),
            head matches ObjectHead::Stream { start, .. } ==> start <= bytes@.len(),
        ensures
            match head.model() {
                HeadModel::Object(value) => r is Some && r->Some_0@ == value,
                HeadModel::Stream { dict, start } => match (
                    r,
                    stream_content(
                        bytes@,
                        start,
                        length,
                        content_limit(self.file(), offset as int, end as int),
                    ),
                ) {
                    (Some(object), Some(content)) => object@ == Value::Stream(dict, content),
                    (None, None) => true,
                    _ => false,
                },
            },
    {
        match head {
            ObjectHead::Object(object) => Some(object),
            ObjectHead::Stream { dict, start } => {
                let object_end = self.object_end(offset);
                let limit = if object_end < end {
                    object_end - offset
                } else {
                    end - offset
                };
                match content_of_stream(bytes.as_slice(), start, length, limit) {
                    Some(content) => Some(Object::Stream(Stream { dict, content })),
                    None => None,
                }
            },
        }
    }

    /// Parses object `id` in the window from `offset` to `end`.
    fn read_window(&self, id: ObjectId, offset: usize, end: usize, path: &Vec<u32>) -> (r: Result<
        Option<Object>,
    >)
        requires
            self.well_formed(),
            offset < end <= self.file().bytes.len(),
        ensures
            ({
                let expected = object_in_window(
                    self.file(),
                    id,
                    offset as int,
                    end as int,
                    path@,
                );
                match r {
                    Ok(Some(object)) => expected == Some(object@),
                    Ok(None) => expected is None,
                    Err(error) => source_failure(error, self.source_can_fail()),
                }
            }),
        decreases streams_left(path@), 6int, 0int,
    {
        match self.head(id, offset, end) {
            Ok(Some((bytes, head))) => {
                let length = match &head {
                    ObjectHead::Stream { dict, .. } => match self.length_of(dict, path) {
                        Ok(length) => length,
                        Err(error) => {
                            return Err(error);
                        },
                    },
                    ObjectHead::Object(_) => None,
                };
                Ok(self.complete(&bytes, head, length, offset, end))
            },
            Ok(None) => Ok(None),
            Err(error) => Err(error),
        }
    }

    /// Parses object `id`, which stands at `offset`.
    ///
    /// The bytes up to the next object are enough for a well-formed object. A wrong neighbouring
    /// offset can cut an object short, so the window grows before the object counts as unreadable.
    /// Stream-length recovery still stops at the next object.
    fn read_object(&self, id: ObjectId, offset: u32, path: &Vec<u32>) -> (r: Result<Object>)
        requires
            self.well_formed(),
            offset < self.file().bytes.len(),
        ensures
            ({
                let expected = object_in(
                    self.file(),
                    id,
                    offset as int,
                    first_window(self.file(), offset as int),
                    path@,
                );
                match r {
                    Ok(object) => expected == Ok::<Value, Error>(object@),
                    Err(error) => source_failure(error, self.source_can_fail()) || (!(error is IO)
                        && expected == Err::<Value, Error>(error)),
                }
            }),
        decreases streams_left(path@), 7int, 0int,
    {
        let at = offset as usize;
        let ghost file = self.file();
        let ghost expected = object_in(
            file,
            id,
            offset as int,
            first_window(file, offset as int),
            path@,
        );
        let mut end = self.first_window(at);
        loop
            invariant
                self.well_formed(),
                file == self.file(),
                at == offset,
                at < end <= file.bytes.len(),
                expected == object_in(
                    file,
                    id,
                    offset as int,
                    first_window(file, offset as int),
                    path@,
                ),
                expected == object_in(file, id, at as int, end as int, path@),
            decreases file.bytes.len() - end,
        {
            let parsed = match self.read_window(id, at, end, path) {
                Ok(parsed) => parsed,
                Err(error) => {
                    return Err(error);
                },
            };
            if let Some(object) = parsed {
                return Ok(object);
            }
            match self.widen(at, end) {
                Some(wide) => {
                    end = wide;
                },
                None => {
                    return Err(Error::Parse(ParseError::IndirectObject));
                },
            }
        }
    }

    /// Object `id` as the file has it, decrypted.
    pub fn decrypt(&self, id: ObjectId, object: Object) -> (r: Object)
        ensures
            r@ == decrypted(self.file(), id, object@),
    {
        match &self.decryption {
            Some(decryption) => {
                let is_dictionary = match self.encryption_id {
                    Some(other) => other.0 == id.0 && other.1 == id.1,
                    None => false,
                };
                if is_dictionary {
                    object
                } else {
                    decryption.decrypt(id, object)
                }
            },
            None => object,
        }
    }

    /// Decodes object stream number `container`, while those of `path` are read.
    fn object_stream(&self, container: u32, path: &Vec<u32>) -> (r: Result<ObjectStream>)
        requires
            self.well_formed(),
        ensures
            match r {
                Ok(stream) => members_within(self.file(), container, path@) == Ok::<
                    StreamMembers,
                    Error,
                >(stream@),
                Err(error) => source_failure(error, self.source_can_fail()) || (!(error is IO)
                    && members_within(self.file(), container, path@) == Err::<StreamMembers, Error>(
                    error,
                )),
            },
        decreases streams_left(path@), 3int, 0int,
    {
        if path.len() as u64 >= 0x1_0000_0000u64 || holds(path, container) {
            return Err(Error::ReferenceCycle((container, 0)));
        }
        let inner = extended(path, container);
        match self.read_within((container, 0), &inner) {
            Ok(Object::Stream(stream)) => {
                proof {
                    lemma_decode_errors(stream.dict@, stream.content@, self.limit);
                }
                ObjectStream::new_with_limit(&stream.dict, stream.content.as_slice(), self.limit)
            },
            Ok(object) => Err(
                Error::ObjectType {
                    expected: ObjectKind::Stream,
                    found: object.enum_variant(),
                },
            ),
            Err(error) => Err(error),
        }
    }

    /// Reads object `id`, past the cache of objects, without following an object that is itself a
    /// reference, while the object streams of `path` are read.
    fn read_within(&self, id: ObjectId, path: &Vec<u32>) -> (r: Result<Object>)
        requires
            self.well_formed(),
        ensures
            match r {
                Ok(object) => object_within(self.file(), id, path@) == Ok::<Value, Error>(object@),
                Err(error) => source_failure(error, self.source_can_fail()) || (!(error is IO)
                    && object_within(self.file(), id, path@) == Err::<Value, Error>(error)),
            },
        decreases streams_left(path@), 8int, 0int,
    {
        match self.reference_table.get(id.0) {
            Some(XrefEntry::Compressed { container, .. }) => self.compressed_object(
                id,
                container,
                path,
            ),
            Some(XrefEntry::Normal { offset, generation }) => {
                if generation != id.1 {
                    return Err(Error::MissingXrefEntry);
                }
                if offset as usize >= self.file.len() {
                    return Err(Error::InvalidOffset(offset as usize));
                }
                match self.read_object(id, offset, path) {
                    Ok(object) => Ok(self.decrypt(id, object)),
                    Err(error) => Err(error),
                }
            },
            _ => Err(Error::MissingXrefEntry),
        }
    }

    /// Object `id`, which stands in object stream number `container`, while those of `path` are
    /// read.
    fn compressed_object(&self, id: ObjectId, container: u32, path: &Vec<u32>) -> (r: Result<Object>)
        requires
            self.well_formed(),
        ensures
            match r {
                Ok(object) => compressed_within(self.file(), id, container, path@) == Ok::<
                    Value,
                    Error,
                >(object@),
                Err(error) => source_failure(error, self.source_can_fail()) || (!(error is IO)
                    && compressed_within(self.file(), id, container, path@) == Err::<Value, Error>(
                    error,
                )),
            },
        decreases streams_left(path@), 4int, 0int,
    {
        let found = if path.len() == 0 {
            assert(path@ =~= Seq::<u32>::empty());
            if let Some(found) = self.known_member(id, container) {
                found
            } else {
                let stream = match self.object_stream(container, path) {
                    Ok(stream) => stream,
                    Err(error) => {
                        return Err(error);
                    },
                };
                let found = stream.get(id.0);
                self.keep_stream(container, stream);
                found
            }
        } else {
            match self.object_stream(container, path) {
                Ok(stream) => stream.get(id.0),
                Err(error) => {
                    return Err(error);
                },
            }
        };
        match found {
            Some(object) => if id.1 == 0 {
                Ok(object)
            } else {
                Err(Error::MissingXrefEntry)
            },
            None => Err(Error::MissingXrefEntry),
        }
    }

    /// What object stream number `container` has under the number of `id`, if the stream is in the
    /// cache.
    fn known_member(&self, id: ObjectId, container: u32) -> (r: Option<Option<Object>>)
        requires
            self.well_formed(),
        ensures
            r matches Some(found) ==> (container_members(self.file(), container) matches Ok(members)
                && members.object(id.0) == match found {
                Some(object) => Some(object@),
                None => None,
            }),
    {
        let empty = FifoCache::new(OBJECT_STREAM_CACHE_ENTRIES);
        let cache = self.object_streams.replace(empty);
        let known = match cache.get(container as u64) {
            Some(stream) => {
                assert(cache@.entries.contains_key(container as u64));
                Some(stream.get(id.0))
            },
            None => None,
        };
        self.object_streams.set(cache);
        known
    }

    /// Keeps `stream`, which object stream number `container` is, in the cache.
    fn keep_stream(&self, container: u32, stream: ObjectStream)
        requires
            self.well_formed(),
            container_members(self.file(), container) == Ok::<StreamMembers, Error>(stream@),
    {
        let empty = FifoCache::new(OBJECT_STREAM_CACHE_ENTRIES);
        let mut cache = self.object_streams.replace(empty);
        proof {
            lemma_cache_keeps_within_capacity(
                cache@,
                OBJECT_STREAM_CACHE_ENTRIES as nat,
                container as u64,
                stream,
            );
        }
        cache.insert(container as u64, stream);
        self.object_streams.set(cache);
    }

    /// Object `id` from the cache.
    fn cached(&self, id: ObjectId) -> (r: Option<Object>)
        requires
            self.well_formed(),
        ensures
            r matches Some(object) ==> stored_object(self.file(), id) == Ok::<Value, Error>(
                object@,
            ),
    {
        let empty = FifoCache::new(OBJECT_CACHE_ENTRIES);
        let cache = self.objects.replace(empty);
        let found = match cache.get(pack(id)) {
            Some(object) => {
                assert(cache@.entries.contains_key(packed(id)));
                Some(object.clone())
            },
            None => None,
        };
        self.objects.set(cache);
        found
    }

    /// Keeps `object`, which object `id` is, in the cache.
    fn keep(&self, id: ObjectId, object: Object)
        requires
            self.well_formed(),
            stored_object(self.file(), id) == Ok::<Value, Error>(object@),
    {
        let empty = FifoCache::new(OBJECT_CACHE_ENTRIES);
        let mut cache = self.objects.replace(empty);
        let ghost before = cache@;
        proof {
            lemma_cache_keeps_within_capacity(
                before,
                OBJECT_CACHE_ENTRIES as nat,
                packed(id),
                object,
            );
        }
        cache.insert(pack(id), object);
        proof {
            assert forall|other: ObjectId| #[trigger]
                cache@.entries.contains_key(packed(other)) implies stored_object(
                self.file(),
                other,
            ) == Ok::<Value, Error>(cache@.entries[packed(other)]@) by {
                lemma_packed(other, id);
                if packed(other) != packed(id) {
                    assert(before.entries.contains_key(packed(other)));
                }
            }
        }
        self.objects.set(cache);
    }

    /// Reads object `id` without following an object that is itself a reference.
    fn resolve(&self, id: ObjectId) -> (r: Result<Object>)
        requires
            self.well_formed(),
        ensures
            match r {
                Ok(object) => stored_object(self.file(), id) == Ok::<Value, Error>(object@),
                Err(error) => source_failure(error, self.source_can_fail()) || (!(error is IO)
                    && stored_object(self.file(), id) == Err::<Value, Error>(error)),
            },
    {
        if let Some(object) = self.cached(id) {
            return Ok(object);
        }
        let path: Vec<u32> = Vec::new();
        assert(path@ =~= Seq::<u32>::empty());
        let object = match self.read_within(id, &path) {
            Ok(object) => object,
            Err(error) => {
                return Err(error);
            },
        };
        // Streams can be large and are rarely read twice for structure.
        if let Object::Stream(_) = &object {
        } else {
            self.keep(id, object.clone());
        }
        Ok(object)
    }

    /// Reads the header, cross-reference data, and trailer from `source`, and sets up decryption: the
    /// empty password first, then `options.password`, as `options.security` tells which of them opens
    /// the document and what it unlocks. Without a password that opens it, the strings and streams of
    /// an encrypted file are returned still encrypted.
    pub fn from_source<H: SecurityHandler<K>>(source: S, options: LoadOptions<H>) -> (r: Result<Self>)
        ensures
            is_opened::<S, K, H>(source, options, r),
    {
        let reading = ReadOptions {
            strict: options.strict,
            max_decompressed_size: options.max_decompressed_size,
        };
        let ghost can_fail = source.can_fail();
        let (file, version) = match LazyFile::find(source) {
            Ok(found) => found,
            Err(error) => {
                return Err(error);
            },
        };
        let (xref_start, reference_table, trailer) = match file.resolve_xref_and_trailer(reading) {
            Ok(structure) => structure,
            Err(error) => {
                return Err(error);
            },
        };
        proof {
            lemma_trailer_is_without_prev(file.bytes(), reading);
        }
        let normal_offsets = sorted_offsets(&reference_table);
        let limit = match options.max_decompressed_size {
            Some(limit) => limit,
            None => usize::MAX,
        };
        let document = Self::assembled(
            file,
            version,
            trailer,
            reference_table,
            normal_offsets,
            xref_start,
            limit,
            None,
            None,
        );
        document.with_encryption(options.password, &options.security)
    }

    /// A document whose parts were read, with nothing cached.
    fn assembled(
        file: LazyFile<S>,
        version: String,
        trailer: Dictionary,
        reference_table: Xref,
        normal_offsets: Vec<usize>,
        xref_start: usize,
        limit: usize,
        decryption: Option<K>,
        encryption_id: Option<ObjectId>,
    ) -> (r: Self)
        requires
            file.well_formed(),
            reference_table.well_formed(),
            reference_table.declared_size() >= 1,
            is_greatest(reference_table@.dom(), (reference_table.declared_size() - 1) as u32),
            lists_offsets(reference_table@, normal_offsets@),
            distinct_keys(trailer@),
            named_entry(trailer@, "Prev"@) is None,
        ensures
            r.well_formed(),
            r.version_text() == version@,
            r.source_can_fail() == file.source().can_fail(),
            r.unlocked() == decryption,
            r.file() == (FileModel {
                bytes: file.bytes(),
                structure: Structure {
                    xref_start: xref_start as int,
                    table: reference_table@,
                    trailer: trailer@,
                },
                limit,
                decryption: plain_by(decryption),
                encryption_id,
            }),
    {
        let ghost model = FileModel {
            bytes: file.bytes(),
            structure: Structure {
                xref_start: xref_start as int,
                table: reference_table@,
                trailer: trailer@,
            },
            limit,
            decryption: plain_by(decryption),
            encryption_id,
        };
        LazyDocument {
            file,
            version,
            trailer,
            reference_table,
            normal_offsets,
            xref_start,
            limit,
            decryption,
            encryption_id,
            objects: InvCell::new(
                FifoCache::new(OBJECT_CACHE_ENTRIES),
                Ghost(ObjectsKept { file: model }),
            ),
            object_streams: InvCell::new(
                FifoCache::new(OBJECT_STREAM_CACHE_ENTRIES),
                Ghost(StreamsKept { file: model }),
            ),
        }
    }

    /// The document with decryption set up.
    fn with_encryption<H: SecurityHandler<K>>(self, password: Option<String>, handler: &H) -> (r: Result<
        Self,
    >)
        requires
            self.well_formed(),
            self.unlocked() is None,
            self.file().encryption_id is None,
        ensures
            match r {
                Ok(document) => {
                    &&& document.well_formed()
                    &&& document.version_text() == self.version_text()
                    &&& document.source_can_fail() == self.source_can_fail()
                    &&& is_set_up::<S, K, H>(
                        self.file(),
                        *handler,
                        match password {
                            Some(password) => Some(password@),
                            None => None,
                        },
                        document,
                    )
                },
                Err(error) => source_failure(error, self.source_can_fail()) || setup_error::<K, H>(
                    self.file(),
                    *handler,
                    match password {
                        Some(password) => Some(password@),
                        None => None,
                    },
                ) == Some(error),
            },
    {
        let (id, dictionary) = match self.trailer.named("Encrypt") {
            Some(Object::Reference(id)) => match self.resolve(*id) {
                Ok(object) => (Some(*id), Some(object)),
                Err(error) => {
                    return Err(error);
                },
            },
            Some(_) => (None, None),
            None => {
                return Ok(self);
            },
        };
        let given = match &password {
            Some(password) => Some(password.as_str()),
            None => None,
        };
        match unlock::<K, H>(handler, &self.trailer, &dictionary, given) {
            Ok(decryption) => Ok(
                // Anything read so far was read before it could be decrypted.
                Self::assembled(
                    self.file,
                    self.version,
                    self.trailer,
                    self.reference_table,
                    self.normal_offsets,
                    self.xref_start,
                    self.limit,
                    decryption,
                    id,
                ),
            ),
            Err(error) => Err(error),
        }
    }

    /// What decrypts the document, when it is encrypted and a password opened it. Without it,
    /// strings and streams of an encrypted file are returned still encrypted.
    pub fn encryption_state(&self) -> (r: Option<&K>)
        ensures
            match r {
                Some(state) => self.unlocked() == Some(*state),
                None => self.unlocked() is None,
            },
    {
        match &self.decryption {
            Some(decryption) => Some(decryption),
            None => None,
        }
    }

    /// The length of the PDF.
    pub fn byte_len(&self) -> (r: usize)
        ensures
            r == self.file().bytes.len(),
    {
        proof {
            use_type_invariant(self);
        }
        self.file.len()
    }

    /// Reads bytes `start..end` of the PDF.
    pub fn read_bytes(&self, start: usize, end: usize) -> (r: Result<Vec<u8>>)
        requires
            start <= end <= self.file().bytes.len(),
        ensures
            match r {
                Ok(bytes) => bytes@ == self.file().bytes.subrange(start as int, end as int),
                Err(error) => source_failure(error, self.source_can_fail()),
            },
    {
        proof {
            use_type_invariant(self);
        }
        self.file.read(start, end)
    }

    /// Where the object at `offset` ends.
    pub fn object_end_at(&self, offset: usize) -> (r: usize)
        ensures
            r == object_end(self.file(), offset as int),
            r <= self.file().bytes.len(),
            offset < self.file().bytes.len() ==> offset < r,
    {
        proof {
            use_type_invariant(self);
        }
        self.object_end(offset)
    }

    /// The head of object `id` in the window from `offset` to `end`.
    pub fn head_at(&self, id: ObjectId, offset: usize, end: usize) -> (r: Result<
        Option<ObjectHead>,
    >)
        requires
            offset <= end <= self.file().bytes.len(),
        ensures
            match r {
                Ok(Some(head)) => {
                    &&& head_in(self.file(), id, offset as int, end as int) == Some(head.model())
                    &&& head matches ObjectHead::Stream { start, .. } ==> offset + start <= end
                },
                Ok(None) => head_in(self.file(), id, offset as int, end as int) is None,
                Err(error) => source_failure(error, self.source_can_fail()),
            },
    {
        proof {
            use_type_invariant(self);
        }
        match self.head(id, offset, end) {
            Ok(Some((_, head))) => Ok(Some(head)),
            Ok(None) => Ok(None),
            Err(error) => Err(error),
        }
    }

    /// Reads object `id` without following an object that is itself a reference.
    pub fn stored(&self, id: ObjectId) -> (r: Result<Object>)
        ensures
            match r {
                Ok(object) => stored_object(self.file(), id) == Ok::<Value, Error>(object@),
                Err(error) => source_failure(error, self.source_can_fail()) || (!(error is IO)
                    && stored_object(self.file(), id) == Err::<Value, Error>(error)),
            },
    {
        proof {
            use_type_invariant(self);
        }
        self.resolve(id)
    }

    /// The version from the `%PDF-` header.
    pub fn version(&self) -> (r: &str)
        ensures
            r@ == self.version_text(),
    {
        self.version.as_str()
    }

    /// The trailer of the newest revision, without `/Prev`.
    pub fn trailer(&self) -> (r: &Dictionary)
        ensures
            r@ == self.file().structure.trailer,
            distinct_keys(r@),
            named_entry(r@, "Prev"@) is None,
    {
        proof {
            use_type_invariant(self);
        }
        &self.trailer
    }

    /// The merged cross-reference table of every revision.
    pub fn reference_table(&self) -> (r: &Xref)
        ensures
            r@ == self.file().structure.table,
            r.well_formed(),
            r.declared_size() >= 1,
            is_greatest(r@.dom(), (r.declared_size() - 1) as u32),
    {
        proof {
            use_type_invariant(self);
        }
        &self.reference_table
    }

    /// Whether the file is encrypted.
    pub fn is_encrypted(&self) -> (r: bool)
        ensures
            r == (named_entry(self.file().structure.trailer, "Encrypt"@) is Some),
    {
        self.trailer.has("Encrypt".as_bytes())
    }

    /// Reads object `id`, following an object that is itself a reference.
    pub fn get_object(&self, id: ObjectId) -> (r: Result<Object>)
        ensures
            match r {
                Ok(object) => followed_object(self.file(), id, DEREF_LIMIT as nat) == Ok::<
                    Value,
                    Error,
                >(object@),
                Err(error) => source_failure(error, self.source_can_fail()) || (!(error is IO)
                    && followed_object(self.file(), id, DEREF_LIMIT as nat) == Err::<Value, Error>(
                    error,
                )),
            },
    {
        proof {
            use_type_invariant(self);
        }
        let ghost file = self.file();
        let mut current = id;
        let mut left: usize = DEREF_LIMIT;
        loop
            invariant
                self.well_formed(),
                file == self.file(),
                followed_object(file, id, DEREF_LIMIT as nat) == followed_object(
                    file,
                    current,
                    left as nat,
                ),
            decreases left,
        {
            match self.resolve(current) {
                Ok(Object::Reference(next)) => {
                    if left == 0 {
                        return Err(Error::ReferenceLimit);
                    }
                    left -= 1;
                    current = next;
                },
                Ok(object) => {
                    return Ok(object);
                },
                Err(error) => {
                    return Err(error);
                },
            }
        }
    }

    /// Reads object `id` as a dictionary.
    pub fn get_dictionary(&self, id: ObjectId) -> (r: Result<Dictionary>)
        ensures
            ({
                let expected = followed_object(self.file(), id, DEREF_LIMIT as nat);
                match r {
                    Ok(dictionary) => expected == Ok::<Value, Error>(
                        Value::Dictionary(dictionary@),
                    ),
                    Err(error) => source_failure(error, self.source_can_fail()) || (!(error is IO)
                        && match expected {
                        Ok(value) => dictionary_of(value) is None && error == wrong_kind(
                            ObjectKind::Dictionary,
                            value,
                        ),
                        Err(expected) => error == expected,
                    }),
                }
            }),
    {
        proof {
            use_type_invariant(self);
        }
        match self.get_object(id) {
            Ok(Object::Dictionary(dictionary)) => Ok(dictionary),
            Ok(other) => Err(
                Error::ObjectType {
                    expected: ObjectKind::Dictionary,
                    found: other.enum_variant(),
                },
            ),
            Err(error) => Err(error),
        }
    }

    /// Follows `object` if it is a reference.
    pub fn dereference(&self, object: &Object) -> (r: Result<Object>)
        ensures
            match (r, object@) {
                (Ok(result), Value::Reference(id)) => followed_object(
                    self.file(),
                    id,
                    DEREF_LIMIT as nat,
                ) == Ok::<Value, Error>(result@),
                (Err(error), Value::Reference(id)) => source_failure(
                    error,
                    self.source_can_fail(),
                ) || (!(error is IO) && followed_object(self.file(), id, DEREF_LIMIT as nat)
                    == Err::<Value, Error>(error)),
                (Ok(result), value) => result@ == value,
                (Err(_), _) => false,
            },
    {
        proof {
            use_type_invariant(self);
        }
        match object {
            Object::Reference(id) => self.get_object(*id),
            _ => Ok(object.clone()),
        }
    }

    /// The document catalog, from the trailer's `/Root`.
    pub fn catalog(&self) -> (r: Result<Dictionary>)
        ensures
            match (r, named_entry(self.file().structure.trailer, "Root"@)) {
                (Ok(catalog), Some(Value::Reference(id))) => followed_object(
                    self.file(),
                    id,
                    DEREF_LIMIT as nat,
                ) == Ok::<Value, Error>(Value::Dictionary(catalog@)),
                (Ok(_), _) => false,
                (Err(error), None) => error == Error::DictKey,
                (Err(error), Some(Value::Reference(id))) => source_failure(
                    error,
                    self.source_can_fail(),
                ) || (!(error is IO) && match followed_object(
                    self.file(),
                    id,
                    DEREF_LIMIT as nat,
                ) {
                    Ok(value) => dictionary_of(value) is None && error == wrong_kind(
                        ObjectKind::Dictionary,
                        value,
                    ),
                    Err(expected) => error == expected,
                }),
                (Err(error), Some(value)) => error == wrong_kind(ObjectKind::Reference, value),
            },
    {
        proof {
            use_type_invariant(self);
        }
        match self.trailer.get("Root".as_bytes()) {
            Ok(root) => match root.as_reference() {
                Ok(id) => self.get_dictionary(id),
                Err(error) => Err(error),
            },
            Err(error) => Err(error),
        }
    }

    /// How many objects are in use.
    fn used_objects(&self) -> (r: usize)
        requires
            self.well_formed(),
        ensures
            r == used_ids(self.file().structure.table).len(),
    {
        let ids = self.reference_table.ids();
        let ghost table = self.reference_table@;
        let ghost mut used: Set<u32> = Set::empty();
        let mut count: usize = 0;
        let mut i: usize = 0;
        while i < ids.len()
            invariant
                self.reference_table.well_formed(),
                table == self.reference_table@,
                ids@ == self.reference_table.listed(),
                i <= ids@.len(),
                count <= i,
                used.finite(),
                used.len() == count,
                forall|id: u32| #[trigger]
                    used.contains(id) <==> in_use(table[id]) && exists|j: int|
                        0 <= j < i && #[trigger] ids@[j] == id,
            decreases ids@.len() - i,
        {
            let id = ids[i];
            assert(ids@.contains(id));
            let ghost before = used;
            if let Some(entry) = self.reference_table.get(id) {
                let is_used = match entry {
                    XrefEntry::Free => false,
                    _ => true,
                };
                if is_used {
                    proof {
                        assert(!used.contains(id)) by {
                            if used.contains(id) {
                                let j = choose|j: int| 0 <= j < i && #[trigger] ids@[j] == id;
                                assert(ids@[j] == ids@[i as int]);
                            }
                        }
                        used = used.insert(id);
                    }
                    count += 1;
                }
            }
            i += 1;
            proof {
                assert forall|other: u32| #[trigger] used.contains(other) <==> in_use(table[other])
                    && exists|j: int| 0 <= j < i && #[trigger] ids@[j] == other by {
                    if used.contains(other) {
                        if other == id {
                            assert(ids@[i - 1] == id);
                        } else {
                            assert(before.contains(other));
                            let j = choose|j: int| 0 <= j < i - 1 && #[trigger] ids@[j] == other;
                            assert(ids@[j] == other);
                        }
                    }
                    if in_use(table[other]) && exists|j: int| 0 <= j < i && #[trigger] ids@[j]
                        == other {
                        let j = choose|j: int| 0 <= j < i && #[trigger] ids@[j] == other;
                        if j < i - 1 {
                            assert(before.contains(other));
                        }
                    }
                }
            }
        }
        proof {
            assert(used =~= used_ids(table)) by {
                assert forall|id: u32| used.contains(id) <==> used_ids(table).contains(id) by {
                    assert(table.contains_key(id) <==> ids@.contains(id));
                    if ids@.contains(id) {
                        let j = ids@.index_of(id);
                        assert(ids@[j] == id);
                    }
                }
            }
        }
        count
    }

    /// Page numbers, from 1, mapped to page object ids, in page-tree order.
    ///
    /// Only children typed `/Page` count, and only children typed `/Pages` are descended into. A
    /// malformed node is skipped, but a failure to read the source is returned.
    pub fn get_pages(&self) -> (r: Result<BTreeMap<u32, ObjectId>>)
        ensures
            match r {
                Ok(pages) => pages@ == numbered(self.pages()),
                Err(error) => source_failure(error, self.source_can_fail()),
            },
    {
        proof {
            use_type_invariant(self);
        }
        let ids = match self.ordered_page_ids() {
            Ok(ids) => ids,
            Err(error) => {
                return Err(error);
            },
        };
        Ok(number_pages(&ids))
    }

    /// The number of pages [`Self::get_pages`] finds.
    pub fn page_count(&self) -> (r: Result<u32>)
        ensures
            match r {
                Ok(count) => count == self.pages().len(),
                Err(error) => source_failure(error, self.source_can_fail()),
            },
    {
        proof {
            use_type_invariant(self);
        }
        match self.ordered_page_ids() {
            Ok(ids) => Ok(ids.len() as u32),
            Err(error) => Err(error),
        }
    }

    /// What the document holds, but for its pages.
    pub open spec fn contents(&self) -> Model {
        Model {
            objects: readable_objects(self.file()),
            trailer: self.file().structure.trailer,
            pages: Seq::empty(),
        }
    }

    /// The pages, in page-tree order. No more kids are looked at than there are objects in use.
    pub open spec fn pages(&self) -> Seq<ObjectId> {
        page_order(self.contents(), used_ids(self.file().structure.table).len())
    }

    fn ordered_page_ids(&self) -> (r: Result<Vec<ObjectId>>)
        requires
            self.well_formed(),
        ensures
            match r {
                Ok(ids) => ids@ == self.pages() && ids@.len() < u32::MAX,
                Err(error) => source_failure(error, self.source_can_fail()),
            },
    {
        let count = self.used_objects();
        ordered_pages(&LazyContents { document: self }, count)
    }
}

/// A document read from its source has the pages of the whole document of the same objects, by the
/// same numbers, if there is an object for each number in use or the page tree comes to its end.
pub proof fn lemma_pages_are_those_of_the_whole_document<
    S: RandomAccessSource,
    K: ObjectDecryption,
>(whole: &Document, lazy: &LazyDocument<S, K>)
    requires
        whole.contents().objects == lazy.contents().objects,
        whole.contents().trailer == lazy.contents().trailer,
        ({
            let used = used_ids(lazy.file().structure.table).len();
            whole.objects.count() == used || (pages_end(whole.contents(), whole.objects.count())
                && pages_end(whole.contents(), used))
        }),
    ensures
        numbered(whole.model().pages) == numbered(lazy.pages()),
        whole.model() == lazy.model(),
{
    let used = used_ids(lazy.file().structure.table).len();
    lemma_same_objects_have_the_same_pages(whole.contents(), lazy.contents(), used, used);
    lemma_same_objects_have_the_same_pages(
        whole.contents(),
        lazy.contents(),
        whole.objects.count(),
        used,
    );
}

/// A document's objects, without its pages.
struct LazyContents<'a, S: RandomAccessSource, K: ObjectDecryption> {
    document: &'a LazyDocument<S, K>,
}

impl<S: RandomAccessSource, K: ObjectDecryption> ObjectResolver for LazyContents<'_, S, K> {
    closed spec fn model(&self) -> Model {
        self.document.contents()
    }

    closed spec fn can_fail(&self) -> bool {
        self.document.source_can_fail()
    }

    fn object(&self, id: ObjectId) -> (r: Result<Cow<'_, Object>>) {
        match self.document.get_object(id) {
            Ok(object) => Ok(Cow::Owned(object)),
            Err(error) => Err(error),
        }
    }

    fn trailer(&self) -> (r: &Dictionary) {
        self.document.trailer()
    }

    fn page_ids(&self) -> (r: Result<Vec<ObjectId>>) {
        Ok(Vec::new())
    }
}

impl<S: RandomAccessSource, K: ObjectDecryption> ObjectResolver for LazyDocument<S, K> {
    open spec fn model(&self) -> Model {
        Model { pages: self.pages(), ..self.contents() }
    }

    open spec fn can_fail(&self) -> bool {
        self.source_can_fail()
    }

    fn object(&self, id: ObjectId) -> (r: Result<Cow<'_, Object>>) {
        match self.get_object(id) {
            Ok(object) => Ok(Cow::Owned(object)),
            Err(error) => Err(error),
        }
    }

    fn trailer(&self) -> (r: &Dictionary) {
        LazyDocument::trailer(self)
    }

    fn page_ids(&self) -> (r: Result<Vec<ObjectId>>) {
        proof {
            use_type_invariant(self);
        }
        self.ordered_page_ids()
    }
}

} // verus!
