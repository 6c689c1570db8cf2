//! Where code that walks a document's structure gets its objects from.

use std::borrow::Cow;

use vstd::prelude::*;

use crate::error::{Error, Result};
use crate::object::{
    array_in, dictionary_in, named_entry, reference_in, value, values, Dictionary, Entries, Object,
    ObjectId, Value,
};

verus! {

/// What a document holds, whatever it is read from.
pub struct Model {
    /// What each object stands for, an object that is itself a reference being followed. An object
    /// that cannot be read, for any reason but a failure of the source, is left out.
    pub objects: Map<ObjectId, Value>,
    /// The trailer of the newest revision.
    pub trailer: Entries,
    /// Page object ids in page-tree order.
    pub pages: Seq<ObjectId>,
}

/// What object `id` stands for.
pub open spec fn found(model: Model, id: ObjectId) -> Option<Value> {
    if model.objects.contains_key(id) {
        Some(model.objects[id])
    } else {
        None
    }
}

/// What `value` stands for once a reference is followed.
pub open spec fn followed(model: Model, value: Value) -> Option<Value> {
    match value {
        Value::Reference(id) => found(model, id),
        _ => Some(value),
    }
}

/// What an entry of a dictionary stands for once a reference is followed.
pub open spec fn followed_entry(model: Model, entries: Entries, name: Seq<char>) -> Option<Value> {
    match named_entry(entries, name) {
        Some(value) => followed(model, value),
        None => None,
    }
}

/// The document catalog.
pub open spec fn catalog_of(model: Model) -> Option<Entries> {
    match reference_in(named_entry(model.trailer, "Root"@)) {
        Some(root) => dictionary_in(found(model, root)),
        None => None,
    }
}

/// A failure to read the source, where `can_fail` says that there can be one.
pub open spec fn source_failure(error: Error, can_fail: bool) -> bool {
    can_fail && error is IO
}

/// What reading an object gives: what it stands for, or an error that is a failure of the source
/// or says that it cannot be read.
pub open spec fn reads<T>(
    result: Result<T>,
    expected: Option<Value>,
    given: spec_fn(T) -> Value,
    can_fail: bool,
) -> bool {
    match result {
        Ok(object) => expected == Some(given(object)),
        Err(error) => source_failure(error, can_fail) || (!(error is IO) && expected is None),
    }
}

/// Objects for code that walks a PDF's structure, such as
/// [`DocumentOutline`](crate::document_outline::DocumentOutline), from a loaded
/// [`Document`](crate::document::Document) or from a
/// [`LazyDocument`](crate::lazy::document::LazyDocument).
pub trait ObjectResolver {
    /// What the document holds. A resolver outside the proof's reach leaves it open.
    closed spec fn model(&self) -> Model {
        arbitrary()
    }

    /// Whether reading the source can fail.
    closed spec fn can_fail(&self) -> bool {
        true
    }

    /// Object `id`, following an object that is itself a reference.
    fn object(&self, id: ObjectId) -> (r: Result<Cow<'_, Object>>)
        ensures
            reads(r, found(self.model(), id), |object: Cow<'_, Object>| object@, self.can_fail()),
    ;

    /// The trailer of the newest revision.
    fn trailer(&self) -> (r: &Dictionary)
        ensures
            r@ == self.model().trailer,
    ;

    /// Page object ids in page-tree order, so that the page with number `n` is at index `n - 1`.
    /// There are no more of them than page numbers can count.
    fn page_ids(&self) -> (r: Result<Vec<ObjectId>>)
        ensures
            match r {
                Ok(ids) => ids@ == self.model().pages && ids@.len() < u32::MAX,
                Err(error) => source_failure(error, self.can_fail()),
            },
    ;
}

/// The object behind `cow`.
pub fn object_of<'a>(cow: &'a Cow<'_, Object>) -> (r: &'a Object)
    ensures
        r@ == cow@,
{
    match cow {
        Cow::Borrowed(object) => object,
        Cow::Owned(object) => object,
    }
}

/// The object behind `cow`, copied if it is borrowed.
pub fn into_owned(cow: Cow<'_, Object>) -> (r: Object)
    ensures
        r@ == cow@,
{
    match cow {
        Cow::Borrowed(object) => object.clone(),
        Cow::Owned(object) => object,
    }
}

/// `object`, or the object it refers to.
pub fn dereference<'a, R: ObjectResolver>(resolver: &'a R, object: &'a Object) -> (r: Result<
    Cow<'a, Object>,
>)
    ensures
        reads(
            r,
            followed(resolver.model(), object@),
            |object: Cow<'a, Object>| object@,
            resolver.can_fail(),
        ),
{
    match object.as_reference() {
        Ok(id) => resolver.object(id),
        Err(_) => Ok(Cow::Borrowed(object)),
    }
}

/// Keeps a failure to read the source, and turns any other error into `None`, for structure walks
/// that skip malformed parts of a document but must not hide I/O failures.
pub fn skip_unless_io<T>(result: Result<T>) -> (r: Result<Option<T>>)
    ensures
        match result {
            Ok(value) => r == Ok::<Option<T>, Error>(Some(value)),
            Err(Error::IO(error)) => r == Err::<Option<T>, Error>(Error::IO(error)),
            Err(_) => r == Ok::<Option<T>, Error>(None),
        },
{
    match result {
        Ok(value) => Ok(Some(value)),
        Err(Error::IO(error)) => Err(Error::IO(error)),
        Err(_) => Ok(None),
    }
}

/// What the entry `name` stands for once a reference is followed, or `None` when there is nothing
/// to read.
pub fn followed_named<R: ObjectResolver>(resolver: &R, dictionary: &Dictionary, name: &str) -> (r:
    Result<Option<Object>>)
    ensures
        match r {
            Ok(Some(object)) => followed_entry(resolver.model(), dictionary@, name@) == Some(
                object@,
            ),
            Ok(None) => followed_entry(resolver.model(), dictionary@, name@) is None,
            Err(error) => source_failure(error, resolver.can_fail()),
        },
{
    match dictionary.named(name) {
        None => Ok(None),
        Some(object) => match skip_unless_io(dereference(resolver, object)) {
            Ok(Some(object)) => Ok(Some(into_owned(object))),
            Ok(None) => Ok(None),
            Err(error) => Err(error),
        },
    }
}

/// The dictionary that the entry `name` is or refers to.
pub fn dictionary_named<R: ObjectResolver>(
    resolver: &R,
    dictionary: &Dictionary,
    name: &str,
) -> (r: Result<Option<Dictionary>>)
    ensures
        match r {
            Ok(Some(inner)) => dictionary_in(
                followed_entry(resolver.model(), dictionary@, name@),
            ) == Some(inner@),
            Ok(None) => dictionary_in(
                followed_entry(resolver.model(), dictionary@, name@),
            ) is None,
            Err(error) => source_failure(error, resolver.can_fail()),
        },
{
    match followed_named(resolver, dictionary, name) {
        Ok(Some(Object::Dictionary(inner))) => Ok(Some(inner)),
        Ok(_) => Ok(None),
        Err(error) => Err(error),
    }
}

/// The array that the entry `name` is or refers to.
pub fn array_named<R: ObjectResolver>(resolver: &R, dictionary: &Dictionary, name: &str) -> (r:
    Result<Option<Vec<Object>>>)
    ensures
        match r {
            Ok(Some(items)) => array_in(
                followed_entry(resolver.model(), dictionary@, name@),
            ) == Some(values(items@)),
            Ok(None) => array_in(followed_entry(resolver.model(), dictionary@, name@)) is None,
            Err(error) => source_failure(error, resolver.can_fail()),
        },
{
    match followed_named(resolver, dictionary, name) {
        Ok(Some(Object::Array(items))) => Ok(Some(items)),
        Ok(_) => Ok(None),
        Err(error) => Err(error),
    }
}

/// Object `id` as a dictionary, or `None` when it is not a readable one.
pub fn dictionary_at<R: ObjectResolver>(resolver: &R, id: ObjectId) -> (r: Result<
    Option<Dictionary>,
>)
    ensures
        match r {
            Ok(Some(inner)) => dictionary_in(found(resolver.model(), id)) == Some(inner@),
            Ok(None) => dictionary_in(found(resolver.model(), id)) is None,
            Err(error) => source_failure(error, resolver.can_fail()),
        },
{
    match skip_unless_io(resolver.object(id)) {
        Ok(Some(object)) => match into_owned(object) {
            Object::Dictionary(inner) => Ok(Some(inner)),
            _ => Ok(None),
        },
        Ok(None) => Ok(None),
        Err(error) => Err(error),
    }
}

/// The document catalog, or `None` when there is no readable one.
pub fn catalog<R: ObjectResolver>(resolver: &R) -> (r: Result<Option<Dictionary>>)
    ensures
        match r {
            Ok(Some(catalog)) => catalog_of(resolver.model()) == Some(catalog@),
            Ok(None) => catalog_of(resolver.model()) is None,
            Err(error) => source_failure(error, resolver.can_fail()),
        },
{
    match resolver.trailer().named("Root") {
        Some(Object::Reference(root)) => dictionary_at(resolver, *root),
        _ => Ok(None),
    }
}

} // verus!
