//! A document held in memory.

use std::borrow::Cow;
use std::collections::BTreeMap;

use vstd::prelude::*;

use crate::error::{Error, Result};
use crate::ids::IdMap;
use crate::object::{
    dictionary_in, dictionary_of, named_entry, value, wrong_kind, Dictionary, Entries, Object,
    ObjectId, ObjectKind, Value,
};
use crate::page_tree::{number_pages, numbered, ordered_pages, page_order};
use crate::resolver::{catalog_of, Model, ObjectResolver};

verus! {

/// Longest chain of references followed to reach an object.
pub const DEREF_LIMIT: usize = 128;

/// A document with every object in memory.
pub struct Document {
    pub version: String,
    pub trailer: Dictionary,
    pub objects: IdMap<Object>,
    pub max_id: u32,
}

/// What each object stands for.
pub open spec fn object_values(objects: Map<ObjectId, Object>) -> Map<ObjectId, Value> {
    objects.map_values(|object: Object| object@)
}

/// Object `id`, following an object that is itself a reference through no more than `left` more.
pub open spec fn chased(objects: Map<ObjectId, Value>, id: ObjectId, left: nat) -> core::result::Result<
    Value,
    Error,
>
    decreases left,
{
    if !objects.contains_key(id) {
        Err(Error::ObjectNotFound(id))
    } else {
        match objects[id] {
            Value::Reference(next) => if left == 0 {
                Err(Error::ReferenceLimit)
            } else {
                chased(objects, next, (left - 1) as nat)
            },
            value => Ok(value),
        }
    }
}

/// Whether `most` is the highest number of `objects`, or 0 without any.
pub open spec fn is_highest(objects: Map<ObjectId, Value>, most: u32) -> bool {
    &&& forall|id: ObjectId| #[trigger] objects.contains_key(id) ==> id.0 <= most
    &&& most == 0 || exists|generation: u16| #[trigger] objects.contains_key((most, generation))
}

/// What each object stands for once references are followed.
pub open spec fn resolved(objects: Map<ObjectId, Value>) -> Map<ObjectId, Value> {
    Map::new(
        |id: ObjectId| chased(objects, id, DEREF_LIMIT as nat) is Ok,
        |id: ObjectId| chased(objects, id, DEREF_LIMIT as nat)->Ok_0,
    )
}

/// What `value` stands for once a reference is followed.
pub open spec fn reached(objects: Map<ObjectId, Value>, value: Value) -> Option<Value> {
    match value {
        Value::Reference(id) => match chased(objects, id, DEREF_LIMIT as nat) {
            Ok(found) => Some(found),
            Err(_) => None,
        },
        _ => Some(value),
    }
}

/// What an entry of a dictionary stands for once a reference is followed.
pub open spec fn reached_entry(
    objects: Map<ObjectId, Value>,
    entries: Entries,
    name: Seq<char>,
) -> Option<Value> {
    match named_entry(entries, name) {
        Some(value) => reached(objects, value),
        None => None,
    }
}

/// The objects of a document, without its list of pages.
pub struct Contents<'a> {
    pub document: &'a Document,
}

impl Document {
    /// What each object stands for.
    pub open spec fn stored(&self) -> Map<ObjectId, Value> {
        object_values(self.objects@)
    }

    /// The objects and the trailer, without the list of pages.
    pub open spec fn contents(&self) -> Model {
        Model { objects: resolved(self.stored()), trailer: self.trailer@, pages: Seq::empty() }
    }

    /// Why there is no catalog, when there is none.
    pub open spec fn catalog_error(&self) -> Error {
        match named_entry(self.trailer@, "Root"@) {
            None => Error::DictKey,
            Some(Value::Reference(id)) => match chased(self.stored(), id, DEREF_LIMIT as nat) {
                Ok(value) => wrong_kind(ObjectKind::Dictionary, value),
                Err(error) => error,
            },
            Some(value) => wrong_kind(ObjectKind::Reference, value),
        }
    }

    /// An empty document.
    pub fn with_version(version: &str) -> (r: Self)
        ensures
            r.version@ == version@,
            r.trailer@ == Seq::<(Seq<u8>, Value)>::empty(),
            r.stored() == Map::<ObjectId, Value>::empty(),
            r.max_id == 0,
    {
        let document = Document {
            version: version.to_owned(),
            trailer: Dictionary::new(),
            objects: IdMap::new(),
            max_id: 0,
        };
        assert(document.stored() =~= Map::<ObjectId, Value>::empty());
        document
    }

    /// The next object id, which no object has if each came from here.
    pub fn new_object_id(&mut self) -> (r: ObjectId)
        requires
            old(self).max_id < u32::MAX,
        ensures
            r == ((old(self).max_id + 1) as u32, 0u16),
            final(self).max_id == old(self).max_id + 1,
            final(self).version == old(self).version,
            final(self).trailer == old(self).trailer,
            final(self).stored() == old(self).stored(),
    {
        self.max_id += 1;
        (self.max_id, 0)
    }

    /// Makes `object` object `id`.
    pub fn set_object(&mut self, id: ObjectId, object: Object)
        ensures
            final(self).stored() == old(self).stored().insert(id, object@),
            final(self).max_id == if id.0 > old(self).max_id {
                id.0
            } else {
                old(self).max_id
            },
            final(self).version == old(self).version,
            final(self).trailer == old(self).trailer,
    {
        let ghost before = self.stored();
        let ghost value = object@;
        self.objects.insert(id, object);
        if id.0 > self.max_id {
            self.max_id = id.0;
        }
        assert(self.stored() =~= before.insert(id, value));
    }

    /// Adds `object` under the next object id.
    pub fn add_object(&mut self, object: Object) -> (r: ObjectId)
        requires
            old(self).max_id < u32::MAX,
        ensures
            r == ((old(self).max_id + 1) as u32, 0u16),
            final(self).max_id == old(self).max_id + 1,
            final(self).stored() == old(self).stored().insert(r, object@),
            final(self).version == old(self).version,
            final(self).trailer == old(self).trailer,
    {
        let id = self.new_object_id();
        self.set_object(id, object);
        id
    }

    /// Object `id`, following an object that is itself a reference.
    pub fn get_object(&self, id: ObjectId) -> (r: Result<&Object>)
        ensures
            match r {
                Ok(object) => chased(self.stored(), id, DEREF_LIMIT as nat) == Ok::<Value, Error>(
                    object@,
                ),
                Err(error) => chased(self.stored(), id, DEREF_LIMIT as nat) == Err::<Value, Error>(
                    error,
                ) && !(error is IO),
            },
    {
        let mut current = id;
        let mut left: usize = DEREF_LIMIT;
        let ghost objects = self.stored();
        loop
            invariant
                objects == self.stored(),
                chased(objects, id, DEREF_LIMIT as nat) == chased(objects, current, left as nat),
            decreases left,
        {
            match self.objects.get(current) {
                None => return Err(Error::ObjectNotFound(current)),
                Some(object) => {
                    assert(objects[current] == object@);
                    match object {
                        Object::Reference(next) => {
                            if left == 0 {
                                return Err(Error::ReferenceLimit);
                            }
                            left -= 1;
                            current = *next;
                        },
                        _ => return Ok(object),
                    }
                },
            }
        }
    }

    /// Object `id` as a dictionary.
    pub fn get_dictionary(&self, id: ObjectId) -> (r: Result<&Dictionary>)
        ensures
            match (r, chased(self.stored(), id, DEREF_LIMIT as nat)) {
                (Ok(dictionary), Ok(value)) => dictionary_of(value) == Some(dictionary@),
                (Err(error), Ok(value)) => dictionary_of(value) is None && error == wrong_kind(
                    ObjectKind::Dictionary,
                    value,
                ),
                (r, Err(error)) => r == Err::<&Dictionary, Error>(error),
            },
    {
        match self.get_object(id) {
            Ok(object) => object.as_dict(),
            Err(error) => Err(error),
        }
    }

    /// `object`, or the object it refers to.
    pub fn dereference<'a>(&'a self, object: &'a Object) -> (r: Result<&'a Object>)
        ensures
            match (r, object@) {
                (Ok(result), Value::Reference(id)) => chased(self.stored(), id, DEREF_LIMIT as nat)
                    == Ok::<Value, Error>(result@),
                (Err(error), Value::Reference(id)) => chased(self.stored(), id, DEREF_LIMIT as nat)
                    == Err::<Value, Error>(error),
                (r, _) => r == Ok::<&Object, Error>(object),
            },
    {
        match object.as_reference() {
            Ok(id) => self.get_object(id),
            Err(_) => Ok(object),
        }
    }

    /// What `object` stands for once a reference is followed.
    pub fn reach<'a>(&'a self, object: &'a Object) -> (r: Option<&'a Object>)
        ensures
            match r {
                Some(found) => reached(self.stored(), object@) == Some(found@),
                None => reached(self.stored(), object@) is None,
            },
    {
        self.dereference(object).ok()
    }

    /// What the entry `name` stands for once a reference is followed.
    pub fn reach_entry<'a>(&'a self, dictionary: &'a Dictionary, name: &str) -> (r: Option<&'a Object>)
        ensures
            match r {
                Some(found) => reached_entry(self.stored(), dictionary@, name@) == Some(found@),
                None => reached_entry(self.stored(), dictionary@, name@) is None,
            },
    {
        match dictionary.named(name) {
            Some(object) => self.reach(object),
            None => None,
        }
    }

    /// The dictionary that the entry `name` is or refers to.
    pub fn reach_dictionary<'a>(&'a self, dictionary: &'a Dictionary, name: &str) -> (r: Option<
        &'a Dictionary,
    >)
        ensures
            match r {
                Some(found) => dictionary_in(reached_entry(self.stored(), dictionary@, name@))
                    == Some(found@),
                None => dictionary_in(reached_entry(self.stored(), dictionary@, name@)) is None,
            },
    {
        match self.reach_entry(dictionary, name) {
            Some(Object::Dictionary(found)) => Some(found),
            _ => None,
        }
    }

    /// Page numbers, from 1, mapped to page object ids, in page-tree order.
    pub fn get_pages(&self) -> (r: BTreeMap<u32, ObjectId>)
        ensures
            r@ == numbered(self.model().pages),
    {
        match ordered_pages(&Contents { document: self }, self.objects.len()) {
            Ok(ids) => number_pages(&ids),
            Err(_) => BTreeMap::new(),
        }
    }

    /// The document catalog, from the trailer's `/Root`.
    pub fn catalog(&self) -> (r: Result<&Dictionary>)
        ensures
            match r {
                Ok(catalog) => catalog_of(self.contents()) == Some(catalog@),
                Err(error) => catalog_of(self.contents()) is None && error == self.catalog_error(),
            },
    {
        match self.trailer.get("Root".as_bytes()) {
            Ok(root) => match root.as_reference() {
                Ok(id) => self.get_dictionary(id),
                Err(error) => Err(error),
            },
            Err(error) => Err(error),
        }
    }
}

impl ObjectResolver for Contents<'_> {
    open spec fn model(&self) -> Model {
        self.document.contents()
    }

    open spec fn can_fail(&self) -> bool {
        false
    }

    fn object(&self, id: ObjectId) -> (r: Result<Cow<'_, Object>>) {
        match self.document.get_object(id) {
            Ok(object) => Ok(Cow::Borrowed(object)),
            Err(error) => Err(error),
        }
    }

    fn trailer(&self) -> (r: &Dictionary) {
        &self.document.trailer
    }

    fn page_ids(&self) -> (r: Result<Vec<ObjectId>>) {
        Ok(Vec::new())
    }
}

impl ObjectResolver for Document {
    open spec fn model(&self) -> Model {
        Model { pages: page_order(self.contents(), self.objects.count()), ..self.contents() }
    }

    open spec fn can_fail(&self) -> bool {
        false
    }

    fn object(&self, id: ObjectId) -> (r: Result<Cow<'_, Object>>) {
        match self.get_object(id) {
            Ok(object) => Ok(Cow::Borrowed(object)),
            Err(error) => Err(error),
        }
    }

    fn trailer(&self) -> (r: &Dictionary) {
        &self.trailer
    }

    fn page_ids(&self) -> (r: Result<Vec<ObjectId>>) {
        ordered_pages(&Contents { document: self }, self.objects.len())
    }
}

} // verus!
