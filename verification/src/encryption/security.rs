//! How an encrypted document is opened: its passwords, and the decryption that one of them unlocks.

use vstd::prelude::*;

use crate::encryption::password::opening_password;
use crate::error::{Error, Result};
use crate::object::{Dictionary, Entries, Object, ObjectId, Value};

verus! {

/// What decrypts the objects of a document.
pub trait ObjectDecryption: Sized {
    /// What object `id` is once its strings and its content are decrypted, as far as they can be.
    closed spec fn plain(&self, id: ObjectId, value: Value) -> Value {
        arbitrary()
    }

    fn decrypt(&self, id: ObjectId, object: Object) -> (r: Object)
        ensures
            r@ == self.plain(id, object@),
    ;
}

/// A security handler: it tells which passwords open a document, and what they unlock.
///
/// It is given the trailer, and the object that is the encryption dictionary, if that is an object of
/// its own.
pub trait SecurityHandler<K: ObjectDecryption> {
    /// Whether `password` opens the document.
    closed spec fn opens(
        &self,
        trailer: Entries,
        dictionary: Option<Value>,
        password: Seq<char>,
    ) -> bool {
        arbitrary()
    }

    /// What `password` unlocks, or why it cannot be set up.
    closed spec fn unlocked(
        &self,
        trailer: Entries,
        dictionary: Option<Value>,
        password: Seq<char>,
    ) -> std::result::Result<K, Error> {
        arbitrary()
    }

    fn authenticate(
        &self,
        trailer: &Dictionary,
        dictionary: &Option<Object>,
        password: &str,
    ) -> (r: bool)
        ensures
            r == self.opens(trailer@, value_in(*dictionary), password@),
    ;

    fn unlock(&self, trailer: &Dictionary, dictionary: &Option<Object>, password: &str) -> (r: Result<
        K,
    >)
        ensures
            r == self.unlocked(trailer@, value_in(*dictionary), password@),
    ;
}

pub open spec fn value_in(object: Option<Object>) -> Option<Value> {
    match object {
        Some(object) => Some(object@),
        None => None,
    }
}

/// How the objects of a document are decrypted, if they are.
pub open spec fn plain_by<K: ObjectDecryption>(decryption: Option<K>) -> Option<
    spec_fn(ObjectId, Value) -> Value,
> {
    match decryption {
        Some(decryption) => Some(|id: ObjectId, value: Value| decryption.plain(id, value)),
        None => None,
    }
}

/// What opening an encrypted document unlocks: what the empty password does, if it opens it, or else
/// what the password given does. `None` when a password is needed and none is given, and an error when
/// the one given does not open the document.
pub open spec fn unlocking<K: ObjectDecryption, H: SecurityHandler<K>>(
    handler: H,
    trailer: Entries,
    dictionary: Option<Value>,
    given: Option<Seq<char>>,
) -> std::result::Result<Option<K>, Error> {
    let chosen = if handler.opens(trailer, dictionary, ""@) {
        Ok(Some(""@))
    } else {
        match given {
            Some(password) => if handler.opens(trailer, dictionary, password) {
                Ok(Some(password))
            } else {
                Err(Error::InvalidPassword)
            },
            None => Ok(None),
        }
    };
    match chosen {
        Ok(Some(password)) => match handler.unlocked(trailer, dictionary, password) {
            Ok(decryption) => Ok(Some(decryption)),
            Err(error) => Err(error),
        },
        Ok(None) => Ok(None),
        Err(error) => Err(error),
    }
}

/// What opening an encrypted document unlocks.
pub fn unlock<K: ObjectDecryption, H: SecurityHandler<K>>(
    handler: &H,
    trailer: &Dictionary,
    dictionary: &Option<Object>,
    given: Option<&str>,
) -> (r: Result<Option<K>>)
    ensures
        r == unlocking::<K, H>(
            *handler,
            trailer@,
            value_in(*dictionary),
            match given {
                Some(password) => Some(password@),
                None => None,
            },
        ),
{
    let empty_opens = handler.authenticate(trailer, dictionary, "");
    let given_opens = match given {
        Some(password) => !empty_opens && handler.authenticate(trailer, dictionary, password),
        None => false,
    };
    match opening_password(empty_opens, given, given_opens) {
        Ok(Some(password)) => match handler.unlock(trailer, dictionary, password) {
            Ok(decryption) => Ok(Some(decryption)),
            Err(error) => Err(error),
        },
        Ok(None) => Ok(None),
        Err(error) => Err(error),
    }
}

/// What decrypts nothing.
#[derive(Clone, Copy, Debug)]
pub struct NoDecryption;

impl ObjectDecryption for NoDecryption {
    open spec fn plain(&self, id: ObjectId, value: Value) -> Value {
        value
    }

    fn decrypt(&self, id: ObjectId, object: Object) -> (r: Object) {
        object
    }
}

/// A security handler that no password satisfies.
#[derive(Clone, Copy, Debug)]
pub struct NoSecurity;

impl SecurityHandler<NoDecryption> for NoSecurity {
    open spec fn opens(
        &self,
        trailer: Entries,
        dictionary: Option<Value>,
        password: Seq<char>,
    ) -> bool {
        false
    }

    open spec fn unlocked(
        &self,
        trailer: Entries,
        dictionary: Option<Value>,
        password: Seq<char>,
    ) -> std::result::Result<NoDecryption, Error> {
        Err(Error::InvalidPassword)
    }

    fn authenticate(
        &self,
        trailer: &Dictionary,
        dictionary: &Option<Object>,
        password: &str,
    ) -> (r: bool) {
        false
    }

    fn unlock(&self, trailer: &Dictionary, dictionary: &Option<Object>, password: &str) -> (r: Result<
        NoDecryption,
    >) {
        Err(Error::InvalidPassword)
    }
}

} // verus!
