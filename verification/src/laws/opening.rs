//! What opening a document and keeping its objects comes to.

use vstd::prelude::*;

use crate::encryption::security::{unlocking, ObjectDecryption, SecurityHandler};
use crate::error::Error;
use crate::lazy::document::{followed_object, FileModel};
use crate::lazy::fifo_cache::{cached, within_capacity, CacheModel};
use crate::lazy::stored_stream::{
    content_ends, lazy_content_ids, lazy_page_content_ids, peeked, PeekedModel,
};
use crate::laws::contents::{are_references, lemma_references};
use crate::object::{named_entry, Entries, ObjectId, Value};
use crate::xref::XrefEntry;

verus! {

/// A document that the empty password opens is opened with it, whatever password is given; another one with
/// the password given, if that opens it; a wrong password is an error; and without one the document stays
/// locked.
pub proof fn lemma_passwords<K: ObjectDecryption, H: SecurityHandler<K>>(
    handler: H,
    trailer: Entries,
    dictionary: Option<Value>,
    given: Option<Seq<char>>,
)
    ensures
        handler.opens(trailer, dictionary, ""@) ==> match handler.unlocked(trailer, dictionary, ""@) {
            Ok(decryption) => unlocking::<K, H>(handler, trailer, dictionary, given) == Ok::<
                Option<K>,
                Error,
            >(Some(decryption)),
            Err(error) => unlocking::<K, H>(handler, trailer, dictionary, given) == Err::<
                Option<K>,
                Error,
            >(error),
        },
        !handler.opens(trailer, dictionary, ""@) ==> match given {
            Some(password) => if handler.opens(trailer, dictionary, password) {
                match handler.unlocked(trailer, dictionary, password) {
                    Ok(decryption) => unlocking::<K, H>(handler, trailer, dictionary, given) == Ok::<
                        Option<K>,
                        Error,
                    >(Some(decryption)),
                    Err(error) => unlocking::<K, H>(handler, trailer, dictionary, given) == Err::<
                        Option<K>,
                        Error,
                    >(error),
                }
            } else {
                unlocking::<K, H>(handler, trailer, dictionary, given) == Err::<Option<K>, Error>(
                    Error::InvalidPassword,
                )
            },
            None => unlocking::<K, H>(handler, trailer, dictionary, given) == Ok::<Option<K>, Error>(
                None,
            ),
        },
{
}

/// A cache holds what was put in last, and everything else that it held, but for the entry that has been in
/// it longest, if there is no more room. An entry that is put in again keeps its place.
pub proof fn lemma_oldest_goes_first<V>(
    cache: CacheModel<V>,
    capacity: nat,
    key: u64,
    value: V,
    other: u64,
)
    requires
        within_capacity(cache, capacity),
        capacity > 0,
        other != key,
    ensures
        ({
            let after = cached(cache, capacity, key, value);
            &&& after.entries.contains_pair(key, value)
            &&& cache.entries.contains_key(key) ==> {
                &&& after.order == cache.order
                &&& after.entries.contains_key(other) <==> cache.entries.contains_key(other)
            }
            &&& !cache.entries.contains_key(key) && cache.order.len() < capacity ==> {
                &&& after.order == cache.order.push(key)
                &&& after.entries.contains_key(other) <==> cache.entries.contains_key(other)
            }
            &&& !cache.entries.contains_key(key) && cache.order.len() == capacity ==> {
                &&& after.order == cache.order.drop_first().push(key)
                &&& after.entries.contains_key(other) <==> cache.entries.contains_key(other) && other
                    != cache.order[0]
            }
            &&& after.entries.contains_key(other) ==> after.entries[other] == cache.entries[other]
        }),
{
    let order = cache.order.push(key);
    if !cache.entries.contains_key(key) && cache.order.len() == capacity {
        assert(order[0] == cache.order[0]);
        assert(order.drop_first() =~= cache.order.drop_first().push(key));
        assert(cache.order.contains(cache.order[0]));
        assert(cache.entries.contains_key(cache.order[0]));
    }
}

/// The content of a stream that is read as it is needed lies in the file, as long as its length says, and
/// `endstream` stands behind it.
pub proof fn lemma_stream_places(file: FileModel, id: ObjectId)
    ensures
        match peeked(file, id) {
            PeekedModel::Stream(place) => {
                &&& file.structure.table.contains_key(id.0)
                &&& file.structure.table[id.0] matches XrefEntry::Normal { generation, .. }
                    && generation == id.1
                &&& 0 <= place.len
                &&& place.start + place.len <= file.bytes.len()
                &&& content_ends(file, place.start + place.len)
                &&& match named_entry(place.dict, "Length"@) {
                    Some(Value::Integer(length)) => place.len == length,
                    Some(Value::Reference(other)) => other != id && followed_object(file, other, 128)
                        == Ok::<Value, Error>(Value::Integer(place.len as i64)),
                    _ => false,
                }
            },
            _ => true,
        },
{
}

/// The content streams of a page of a file are those that its `/Contents` refers to, in order, or the one
/// stream that it refers to, though that cannot be read.
pub proof fn lemma_content_streams_of_files(
    file: FileModel,
    page: ObjectId,
    entries: Entries,
    contents: Value,
    items: Seq<Value>,
    parts: Seq<Seq<ObjectId>>,
)
    requires
        followed_object(file, page, 128) == Ok::<Value, Error>(Value::Dictionary(entries)),
        named_entry(entries, "Contents"@) == Some(contents),
    ensures
        are_references(items, parts) && (contents == Value::Array(items) || (contents matches
            Value::Reference(id) && peeked(file, id) == PeekedModel::Object(Value::Array(items))))
            ==> lazy_page_content_ids(file, page) == parts.flatten(),
        (contents matches Value::Reference(id) && match peeked(file, id) {
            PeekedModel::Stream(_) => true,
            PeekedModel::Missing => true,
            PeekedModel::Object(object) => object is Stream,
        }) ==> lazy_page_content_ids(file, page) == seq![contents->Reference_0],
{
    reveal(lazy_page_content_ids);
    if are_references(items, parts) {
        lemma_references(items, parts);
        if let Value::Reference(id) = contents {
            if peeked(file, id) == PeekedModel::Object(Value::Array(items)) {
                assert(lazy_content_ids(file, contents, 128) == lazy_content_ids(
                    file,
                    Value::Array(items),
                    127,
                ));
            }
        }
    }
}

} // verus!
