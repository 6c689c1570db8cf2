//! Which password opens an encrypted document.

use vstd::prelude::*;

use crate::error::{Error, Result};

verus! {

/// The password that opens a document: the empty one if it does, or else the one given.
/// `empty_opens` and `given_opens` say which of them the document accepts. `None` when a password
/// is needed and none was given: the document is then read as far as it goes without.
pub fn opening_password<'a>(
    empty_opens: bool,
    given: Option<&'a str>,
    given_opens: bool,
) -> (r: Result<Option<&'a str>>)
    ensures
        match r {
            Ok(Some(password)) => {
                ||| empty_opens && password@ == ""@
                ||| !empty_opens && given_opens && given == Some(password)
            },
            Ok(None) => !empty_opens && given is None,
            Err(error) => !empty_opens && given is Some && !given_opens && error
                == Error::InvalidPassword,
        },
{
    if empty_opens {
        return Ok(Some(""));
    }
    match given {
        Some(password) => if given_opens {
            Ok(Some(password))
        } else {
            Err(Error::InvalidPassword)
        },
        None => Ok(None),
    }
}

} // verus!
