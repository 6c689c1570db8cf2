//! The objects a PDF is made of, and the values they stand for.

use vstd::prelude::*;

use crate::bytes;
use crate::error::{Error, Result};
use crate::number::{integer_as_real, Real};

verus! {

/// An object's number and generation.
pub type ObjectId = (u32, u16);

/// How a string is written in a file.
#[derive(Clone, Copy, Debug, PartialEq, Eq, Structural)]
pub enum StringFormat {
    Literal,
    Hexadecimal,
}

/// The kinds of objects.
#[derive(Clone, Copy, Debug, PartialEq, Eq, Structural)]
pub enum ObjectKind {
    Null,
    Boolean,
    Integer,
    Real,
    Name,
    String,
    Array,
    Dictionary,
    Stream,
    Reference,
}

/// Names and what they stand for, in the order in which they were first set.
#[derive(Debug, PartialEq)]
pub struct Dictionary {
    pub entries: Vec<(Vec<u8>, Object)>,
}

/// A dictionary with bytes as the file stores them.
#[derive(Debug, PartialEq)]
pub struct Stream {
    pub dict: Dictionary,
    pub content: Vec<u8>,
}

#[derive(Debug, PartialEq)]
pub enum Object {
    Null,
    Boolean(bool),
    Integer(i64),
    Real(Real),
    Name(Vec<u8>),
    String(Vec<u8>, StringFormat),
    Array(Vec<Object>),
    Dictionary(Dictionary),
    Stream(Stream),
    Reference(ObjectId),
}

/// The entries of a dictionary.
pub type Entries = Seq<(Seq<u8>, Value)>;

/// What an object stands for.
pub enum Value {
    Null,
    Boolean(bool),
    Integer(i64),
    Real(Real),
    Name(Seq<u8>),
    String(Seq<u8>, StringFormat),
    Array(Seq<Value>),
    Dictionary(Entries),
    Stream(Entries, Seq<u8>),
    Reference(ObjectId),
}

pub open spec fn value(object: Object) -> Value
    decreases object,
{
    match object {
        Object::Null => Value::Null,
        Object::Boolean(b) => Value::Boolean(b),
        Object::Integer(i) => Value::Integer(i),
        Object::Real(r) => Value::Real(r),
        Object::Name(name) => Value::Name(name@),
        Object::String(bytes, format) => Value::String(bytes@, format),
        Object::Array(items) => Value::Array(values(items@)),
        Object::Dictionary(dictionary) => Value::Dictionary(entry_values(dictionary.entries@)),
        Object::Stream(stream) => Value::Stream(
            entry_values(stream.dict.entries@),
            stream.content@,
        ),
        Object::Reference(id) => Value::Reference(id),
    }
}

pub open spec fn values(items: Seq<Object>) -> Seq<Value>
    decreases items,
{
    Seq::new(
        items.len(),
        |i: int|
            if 0 <= i < items.len() {
                value(items[i])
            } else {
                Value::Null
            },
    )
}

pub open spec fn entry_values(entries: Seq<(Vec<u8>, Object)>) -> Entries
    decreases entries,
{
    Seq::new(
        entries.len(),
        |i: int|
            if 0 <= i < entries.len() {
                (entries[i].0@, value(entries[i].1))
            } else {
                (Seq::empty(), Value::Null)
            },
    )
}

impl View for Object {
    type V = Value;

    open spec fn view(&self) -> Value {
        value(*self)
    }
}

impl View for Dictionary {
    type V = Entries;

    open spec fn view(&self) -> Entries {
        entry_values(self.entries@)
    }
}

/// What the first entry under `key` stands for.
pub open spec fn entry(entries: Entries, key: Seq<u8>) -> Option<Value>
    decreases entries.len(),
{
    if entries.len() == 0 {
        None
    } else if entries[0].0 == key {
        Some(entries[0].1)
    } else {
        entry(entries.drop_first(), key)
    }
}

/// What the entry spelt `name` stands for.
pub open spec fn named_entry(entries: Entries, name: Seq<char>) -> Option<Value> {
    entry(entries, bytes::key(name))
}

/// `entries` with `key` standing for `value`: in place of what it stood for before, or else last.
pub open spec fn set_entry(entries: Entries, key: Seq<u8>, value: Value) -> Entries
    decreases entries.len(),
{
    if entries.len() == 0 {
        seq![(key, value)]
    } else if entries[0].0 == key {
        entries.update(0, (key, value))
    } else {
        seq![entries[0]] + set_entry(entries.drop_first(), key, value)
    }
}

/// `entries` without the first one under `key`.
pub open spec fn remove_entry(entries: Entries, key: Seq<u8>) -> Entries
    decreases entries.len(),
{
    if entries.len() == 0 {
        entries
    } else if entries[0].0 == key {
        entries.drop_first()
    } else {
        seq![entries[0]] + remove_entry(entries.drop_first(), key)
    }
}

/// No two entries have the same key.
pub open spec fn distinct_keys(entries: Entries) -> bool {
    forall|i: int, j: int|
        0 <= i < j < entries.len() ==> #[trigger] entries[i].0 != #[trigger] entries[j].0
}

pub open spec fn kind(value: Value) -> ObjectKind {
    match value {
        Value::Null => ObjectKind::Null,
        Value::Boolean(_) => ObjectKind::Boolean,
        Value::Integer(_) => ObjectKind::Integer,
        Value::Real(_) => ObjectKind::Real,
        Value::Name(_) => ObjectKind::Name,
        Value::String(_, _) => ObjectKind::String,
        Value::Array(_) => ObjectKind::Array,
        Value::Dictionary(_) => ObjectKind::Dictionary,
        Value::Stream(_, _) => ObjectKind::Stream,
        Value::Reference(_) => ObjectKind::Reference,
    }
}

/// The error of an object that is not of the kind `expected`.
pub open spec fn wrong_kind(expected: ObjectKind, found: Value) -> Error {
    Error::ObjectType { expected, found: kind(found) }
}

pub open spec fn reference_of(value: Value) -> Option<ObjectId> {
    match value {
        Value::Reference(id) => Some(id),
        _ => None,
    }
}

pub open spec fn dictionary_of(value: Value) -> Option<Entries> {
    match value {
        Value::Dictionary(entries) => Some(entries),
        _ => None,
    }
}

pub open spec fn array_of(value: Value) -> Option<Seq<Value>> {
    match value {
        Value::Array(items) => Some(items),
        _ => None,
    }
}

pub open spec fn name_of(value: Value) -> Option<Seq<u8>> {
    match value {
        Value::Name(name) => Some(name),
        _ => None,
    }
}

pub open spec fn string_of(value: Value) -> Option<Seq<u8>> {
    match value {
        Value::String(bytes, _) => Some(bytes),
        _ => None,
    }
}

pub open spec fn integer_of(value: Value) -> Option<i64> {
    match value {
        Value::Integer(i) => Some(i),
        _ => None,
    }
}

/// A number as a real: an integer is rounded to the nearest one.
pub open spec fn number_of(value: Value) -> Option<Real> {
    match value {
        Value::Integer(i) => Some(crate::number::nearest(i as int)),
        Value::Real(r) => Some(r),
        _ => None,
    }
}

/// The references, dictionaries and so on that an optional value may be.
pub open spec fn reference_in(value: Option<Value>) -> Option<ObjectId> {
    match value {
        Some(value) => reference_of(value),
        None => None,
    }
}

pub open spec fn dictionary_in(value: Option<Value>) -> Option<Entries> {
    match value {
        Some(value) => dictionary_of(value),
        None => None,
    }
}

pub open spec fn array_in(value: Option<Value>) -> Option<Seq<Value>> {
    match value {
        Some(value) => array_of(value),
        None => None,
    }
}

pub open spec fn name_in(value: Option<Value>) -> Option<Seq<u8>> {
    match value {
        Some(value) => name_of(value),
        None => None,
    }
}

/// The first entry under `key` is the one at `index` when no earlier one is under it.
pub proof fn lemma_entry_at(entries: Entries, key: Seq<u8>, index: int)
    requires
        0 <= index < entries.len(),
        entries[index].0 == key,
        forall|j: int| 0 <= j < index ==> (#[trigger] entries[j]).0 != key,
    ensures
        entry(entries, key) == Some(entries[index].1),
        set_entry(entries, key, entries[index].1) == entries,
        forall|value: Value|
            #[trigger] set_entry(entries, key, value) == entries.update(index, (key, value)),
        remove_entry(entries, key) == entries.remove(index),
    decreases index,
{
    if index > 0 {
        let rest = entries.drop_first();
        assert forall|j: int| 0 <= j < index - 1 implies (#[trigger] rest[j]).0 != key by {
            assert(rest[j] == entries[j + 1]);
        }
        lemma_entry_at(rest, key, index - 1);
        assert(entries[0].0 != key);
        assert forall|value: Value|
            #[trigger] set_entry(entries, key, value) == entries.update(index, (key, value)) by {
            assert(set_entry(rest, key, value) == rest.update(index - 1, (key, value)));
            assert(seq![entries[0]] + rest.update(index - 1, (key, value)) =~= entries.update(
                index,
                (key, value),
            ));
        }
        assert(seq![entries[0]] + rest.remove(index - 1) =~= entries.remove(index));
    } else {
        assert(entries.drop_first() =~= entries.remove(0));
    }
    assert(entries.update(index, (key, entries[index].1)) =~= entries);
}

/// There is no entry under a key that none has.
pub proof fn lemma_entry_absent(entries: Entries, key: Seq<u8>)
    requires
        forall|j: int| 0 <= j < entries.len() ==> (#[trigger] entries[j]).0 != key,
    ensures
        entry(entries, key) is None,
        forall|value: Value| #[trigger]
            set_entry(entries, key, value) == entries.push((key, value)),
        remove_entry(entries, key) == entries,
    decreases entries.len(),
{
    if entries.len() > 0 {
        let rest = entries.drop_first();
        assert forall|j: int| 0 <= j < rest.len() implies (#[trigger] rest[j]).0 != key by {
            assert(rest[j] == entries[j + 1]);
        }
        lemma_entry_absent(rest, key);
        assert(entries[0].0 != key);
        assert forall|value: Value|
            #[trigger] set_entry(entries, key, value) == entries.push((key, value)) by {
            assert(set_entry(rest, key, value) == rest.push((key, value)));
            assert(seq![entries[0]] + rest.push((key, value)) =~= entries.push((key, value)));
        }
        assert(seq![entries[0]] + rest =~= entries);
    } else {
        assert forall|value: Value|
            #[trigger] set_entry(entries, key, value) == entries.push((key, value)) by {
            assert(seq![(key, value)] =~= entries.push((key, value)));
        }
    }
}

/// Reading a key gives what was last set under it, and setting it changes no other key.
pub proof fn lemma_set_then_get(entries: Entries, key: Seq<u8>, value: Value, other: Seq<u8>)
    ensures
        entry(set_entry(entries, key, value), key) == Some(value),
        other != key ==> entry(set_entry(entries, key, value), other) == entry(entries, other),
    decreases entries.len(),
{
    if entries.len() == 0 {
        let set = set_entry(entries, key, value);
        assert(set.drop_first() =~= entries);
        assert(entry(entries, other) is None);
    } else if entries[0].0 == key {
        let set = set_entry(entries, key, value);
        assert(set.drop_first() =~= entries.drop_first());
    } else {
        lemma_set_then_get(entries.drop_first(), key, value, other);
        let set = set_entry(entries, key, value);
        assert(set.drop_first() =~= set_entry(entries.drop_first(), key, value));
        assert(set[0] == entries[0]);
    }
}

/// Setting a key keeps the keys distinct.
pub proof fn lemma_set_keeps_keys_distinct(entries: Entries, key: Seq<u8>, value: Value)
    requires
        distinct_keys(entries),
    ensures
        distinct_keys(set_entry(entries, key, value)),
{
    if exists|i: int| 0 <= i < entries.len() && (#[trigger] entries[i]).0 == key {
        let i = choose|i: int| 0 <= i < entries.len() && (#[trigger] entries[i]).0 == key;
        lemma_entry_at(entries, key, i);
        assert(set_entry(entries, key, value) == entries.update(i, (key, value)));
    } else {
        lemma_entry_absent(entries, key);
        assert(set_entry(entries, key, value) == entries.push((key, value)));
    }
}

/// Removing a key keeps the keys distinct, and every other entry, and leaves none under the key.
pub proof fn lemma_remove_takes_the_key_out(entries: Entries, key: Seq<u8>)
    requires
        distinct_keys(entries),
    ensures
        distinct_keys(remove_entry(entries, key)),
        entry(remove_entry(entries, key), key) is None,
        forall|other: Seq<u8>|
            other != key ==> #[trigger] entry(remove_entry(entries, key), other) == entry(
                entries,
                other,
            ),
{
    if exists|i: int| 0 <= i < entries.len() && (#[trigger] entries[i]).0 == key {
        let i = choose|i: int| 0 <= i < entries.len() && (#[trigger] entries[i]).0 == key;
        lemma_entry_at(entries, key, i);
        let rest = entries.remove(i);
        assert forall|j: int, k: int| 0 <= j < k < rest.len() implies #[trigger] rest[j].0
            != #[trigger] rest[k].0 by {
            let a = if j < i {
                j
            } else {
                j + 1
            };
            let b = if k < i {
                k
            } else {
                k + 1
            };
            assert(rest[j] == entries[a] && rest[k] == entries[b]);
        }
        assert forall|j: int| 0 <= j < rest.len() implies (#[trigger] rest[j]).0 != key by {
            assert(rest[j] == if j < i {
                entries[j]
            } else {
                entries[j + 1]
            });
        }
        lemma_entry_absent(rest, key);
    } else {
        lemma_entry_absent(entries, key);
    }
    assert forall|other: Seq<u8>| other != key implies #[trigger] entry(
        remove_entry(entries, key),
        other,
    ) == entry(entries, other) by {
        lemma_other_entry(entries, key, other);
    }
}

proof fn lemma_other_entry(entries: Entries, key: Seq<u8>, other: Seq<u8>)
    requires
        other != key,
    ensures
        entry(remove_entry(entries, key), other) == entry(entries, other),
    decreases entries.len(),
{
    if entries.len() > 0 && entries[0].0 != key {
        let rest = entries.drop_first();
        lemma_other_entry(rest, key, other);
        let without = seq![entries[0]] + remove_entry(rest, key);
        assert(without.drop_first() =~= remove_entry(rest, key));
        assert(without[0] == entries[0]);
    }
}

fn clone_entries(entries: &Vec<(Vec<u8>, Object)>) -> (r: Vec<(Vec<u8>, Object)>)
    ensures
        entry_values(r@) == entry_values(entries@),
    decreases entries,
{
    let mut copy: Vec<(Vec<u8>, Object)> = Vec::new();
    let mut i: usize = 0;
    while i < entries.len()
        invariant
            i <= entries@.len(),
            copy@.len() == i,
            forall|j: int|
                0 <= j < i ==> (#[trigger] copy@[j]).0@ == entries@[j].0@ && value(copy@[j].1)
                    == value(entries@[j].1),
        decreases entries@.len() - i,
    {
        let name = bytes::to_vec(entries[i].0.as_slice());
        let object = entries[i].1.clone();
        copy.push((name, object));
        i += 1;
    }
    assert(entry_values(copy@) =~= entry_values(entries@));
    copy
}

impl Clone for Dictionary {
    fn clone(&self) -> (r: Self)
        ensures
            r@ == self@,
        decreases self,
    {
        Dictionary { entries: clone_entries(&self.entries) }
    }
}

impl Clone for Stream {
    fn clone(&self) -> (r: Self)
        ensures
            r.dict@ == self.dict@,
            r.content@ == self.content@,
        decreases self,
    {
        Stream { dict: self.dict.clone(), content: bytes::to_vec(self.content.as_slice()) }
    }
}

impl Clone for Object {
    fn clone(&self) -> (r: Self)
        ensures
            r@ == self@,
        decreases self,
    {
        match self {
            Object::Null => Object::Null,
            Object::Boolean(b) => Object::Boolean(*b),
            Object::Integer(i) => Object::Integer(*i),
            Object::Real(r) => Object::Real(*r),
            Object::Name(name) => Object::Name(bytes::to_vec(name.as_slice())),
            Object::String(string, format) => Object::String(
                bytes::to_vec(string.as_slice()),
                *format,
            ),
            Object::Array(items) => {
                let mut copy: Vec<Object> = Vec::new();
                let mut i: usize = 0;
                while i < items.len()
                    invariant
                        i <= items@.len(),
                        copy@.len() == i,
                        forall|j: int| 0 <= j < i ==> value(#[trigger] copy@[j]) == value(items@[j]),
                        decreases_to!(self => items),
                    decreases items@.len() - i,
                {
                    copy.push(items[i].clone());
                    i += 1;
                }
                assert(values(copy@) =~= values(items@));
                Object::Array(copy)
            },
            Object::Dictionary(dictionary) => Object::Dictionary(dictionary.clone()),
            Object::Stream(stream) => Object::Stream(stream.clone()),
            Object::Reference(id) => Object::Reference(*id),
        }
    }
}

/// `items` copied into a vector of its own.
pub fn clone_all(items: &Vec<Object>) -> (r: Vec<Object>)
    ensures
        values(r@) == values(items@),
        r@.len() == items@.len(),
{
    let mut copy: Vec<Object> = Vec::new();
    let mut i: usize = 0;
    while i < items.len()
        invariant
            i <= items@.len(),
            copy@.len() == i,
            forall|j: int| 0 <= j < i ==> value(#[trigger] copy@[j]) == value(items@[j]),
        decreases items@.len() - i,
    {
        copy.push(items[i].clone());
        i += 1;
    }
    assert(values(copy@) =~= values(items@));
    copy
}

impl Object {
    pub fn enum_variant(&self) -> (r: ObjectKind)
        ensures
            r == kind(self@),
    {
        match self {
            Object::Null => ObjectKind::Null,
            Object::Boolean(_) => ObjectKind::Boolean,
            Object::Integer(_) => ObjectKind::Integer,
            Object::Real(_) => ObjectKind::Real,
            Object::Name(_) => ObjectKind::Name,
            Object::String(_, _) => ObjectKind::String,
            Object::Array(_) => ObjectKind::Array,
            Object::Dictionary(_) => ObjectKind::Dictionary,
            Object::Stream(_) => ObjectKind::Stream,
            Object::Reference(_) => ObjectKind::Reference,
        }
    }

    pub fn as_reference(&self) -> (r: Result<ObjectId>)
        ensures
            match r {
                Ok(id) => reference_of(self@) == Some(id),
                Err(e) => reference_of(self@) is None && e == wrong_kind(ObjectKind::Reference, self@),
            },
    {
        match self {
            Object::Reference(id) => Ok(*id),
            _ => Err(
                Error::ObjectType { expected: ObjectKind::Reference, found: self.enum_variant() },
            ),
        }
    }

    pub fn as_dict(&self) -> (r: Result<&Dictionary>)
        ensures
            match r {
                Ok(d) => dictionary_of(self@) == Some(d@),
                Err(e) => dictionary_of(self@) is None && e == wrong_kind(
                    ObjectKind::Dictionary,
                    self@,
                ),
            },
    {
        match self {
            Object::Dictionary(dictionary) => Ok(dictionary),
            _ => Err(
                Error::ObjectType { expected: ObjectKind::Dictionary, found: self.enum_variant() },
            ),
        }
    }

    pub fn as_array(&self) -> (r: Result<&Vec<Object>>)
        ensures
            match r {
                Ok(items) => array_of(self@) == Some(values(items@)),
                Err(e) => array_of(self@) is None && e == wrong_kind(ObjectKind::Array, self@),
            },
    {
        match self {
            Object::Array(items) => Ok(items),
            _ => Err(Error::ObjectType { expected: ObjectKind::Array, found: self.enum_variant() }),
        }
    }

    pub fn as_name(&self) -> (r: Result<&[u8]>)
        ensures
            match r {
                Ok(name) => name_of(self@) == Some(name@),
                Err(e) => name_of(self@) is None && e == wrong_kind(ObjectKind::Name, self@),
            },
    {
        match self {
            Object::Name(name) => Ok(name.as_slice()),
            _ => Err(Error::ObjectType { expected: ObjectKind::Name, found: self.enum_variant() }),
        }
    }

    pub fn as_str(&self) -> (r: Result<&[u8]>)
        ensures
            match r {
                Ok(string) => string_of(self@) == Some(string@),
                Err(e) => string_of(self@) is None && e == wrong_kind(ObjectKind::String, self@),
            },
    {
        match self {
            Object::String(string, _) => Ok(string.as_slice()),
            _ => Err(Error::ObjectType { expected: ObjectKind::String, found: self.enum_variant() }),
        }
    }

    pub fn as_i64(&self) -> (r: Result<i64>)
        ensures
            match r {
                Ok(i) => integer_of(self@) == Some(i),
                Err(e) => integer_of(self@) is None && e == wrong_kind(ObjectKind::Integer, self@),
            },
    {
        match self {
            Object::Integer(i) => Ok(*i),
            _ => Err(Error::ObjectType { expected: ObjectKind::Integer, found: self.enum_variant() }),
        }
    }

    /// A number as a real: an integer is rounded to the nearest one.
    pub fn as_float(&self) -> (r: Result<Real>)
        ensures
            match r {
                Ok(number) => number_of(self@) == Some(number),
                Err(e) => number_of(self@) is None && e == wrong_kind(ObjectKind::Real, self@),
            },
    {
        match self {
            Object::Integer(i) => Ok(integer_as_real(*i)),
            Object::Real(r) => Ok(*r),
            _ => Err(Error::ObjectType { expected: ObjectKind::Real, found: self.enum_variant() }),
        }
    }
}

impl Dictionary {
    pub fn new() -> (r: Self)
        ensures
            r@ == Seq::<(Seq<u8>, Value)>::empty(),
    {
        let dictionary = Dictionary { entries: Vec::new() };
        assert(dictionary@ =~= Seq::<(Seq<u8>, Value)>::empty());
        dictionary
    }

    /// Where the first entry under `key` is.
    fn position(&self, key: &[u8]) -> (r: Option<usize>)
        ensures
            match r {
                Some(i) => i < self.entries@.len() && self@[i as int].0 == key@ && forall|j: int|
                    0 <= j < i ==> (#[trigger] self@[j]).0 != key@,
                None => forall|j: int| 0 <= j < self@.len() ==> (#[trigger] self@[j]).0 != key@,
            },
    {
        let mut i: usize = 0;
        while i < self.entries.len()
            invariant
                i <= self.entries@.len(),
                forall|j: int| 0 <= j < i ==> (#[trigger] self@[j]).0 != key@,
            decreases self.entries@.len() - i,
        {
            if bytes::same(self.entries[i].0.as_slice(), key) {
                return Some(i);
            }
            i += 1;
        }
        None
    }

    /// What `key` stands for.
    pub fn get(&self, key: &[u8]) -> (r: Result<&Object>)
        ensures
            match r {
                Ok(object) => entry(self@, key@) == Some(object@),
                Err(e) => entry(self@, key@) is None && e == Error::DictKey,
            },
    {
        match self.position(key) {
            Some(i) => {
                proof {
                    lemma_entry_at(self@, key@, i as int);
                }
                Ok(&self.entries[i].1)
            },
            None => {
                proof {
                    lemma_entry_absent(self@, key@);
                }
                Err(Error::DictKey)
            },
        }
    }

    /// What the key spelt `name` stands for, if anything.
    pub fn named(&self, name: &str) -> (r: Option<&Object>)
        ensures
            match r {
                Some(object) => named_entry(self@, name@) == Some(object@),
                None => named_entry(self@, name@) is None,
            },
    {
        self.get(name.as_bytes()).ok()
    }

    /// Whether `key` stands for anything.
    pub fn has(&self, key: &[u8]) -> (r: bool)
        ensures
            r == (entry(self@, key@) is Some),
    {
        self.get(key).is_ok()
    }

    /// Makes `key` stand for `value`.
    pub fn set(&mut self, key: Vec<u8>, value: Object)
        ensures
            final(self)@ == set_entry(old(self)@, key@, value@),
    {
        let ghost before = self@;
        match self.position(key.as_slice()) {
            Some(i) => {
                proof {
                    lemma_entry_at(before, key@, i as int);
                    assert(set_entry(before, key@, value@) == before.update(
                        i as int,
                        (key@, value@),
                    ));
                }
                let ghost pair = (key@, value@);
                self.entries[i] = (key, value);
                assert(self@ =~= before.update(i as int, pair));
            },
            None => {
                proof {
                    lemma_entry_absent(before, key@);
                    assert(set_entry(before, key@, value@) == before.push((key@, value@)));
                }
                let ghost pair = (key@, value@);
                self.entries.push((key, value));
                assert(self@ =~= before.push(pair));
            },
        }
    }

    /// Takes out what `key` stands for.
    pub fn remove(&mut self, key: &[u8]) -> (r: Option<Object>)
        ensures
            final(self)@ == remove_entry(old(self)@, key@),
            match r {
                Some(object) => entry(old(self)@, key@) == Some(object@),
                None => entry(old(self)@, key@) is None,
            },
    {
        let ghost before = self@;
        match self.position(key) {
            Some(i) => {
                proof {
                    lemma_entry_at(before, key@, i as int);
                }
                let (_, object) = self.entries.remove(i);
                assert(self@ =~= before.remove(i as int));
                Some(object)
            },
            None => {
                proof {
                    lemma_entry_absent(before, key@);
                }
                None
            },
        }
    }
}

} // verus!
