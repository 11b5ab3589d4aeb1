//! What the server answers.

use crate::utils::{DeleteResponse, GetResponse, PutResponse};
use vstd::prelude::*;

verus! {

/// The status of a request that was served.
pub const STATUS_OK: u16 = 200;

/// The status of a request for a key that is not there.
pub const STATUS_NOT_FOUND: u16 = 404;

/// The response to a request for a key, with its status.
pub fn get_key(answer: Result<String, String>) -> (r: (u16, GetResponse))
    ensures
        match answer {
            Ok(value) => r.0 == STATUS_OK && r.0 == 200 && r.1.value@ == value@ && r.1.error@ == ""@,
            Err(error) => r.0 == STATUS_NOT_FOUND && r.0 == 404 && r.1.value@ == ""@ && r.1.error@ == error@,
        },
{
    match answer {
        Ok(value) => (STATUS_OK, GetResponse { value, error: "".to_owned() }),
        Err(error) => (STATUS_NOT_FOUND, GetResponse { value: "".to_owned(), error }),
    }
}

/// The response to a request to set a key, with its status.
pub fn put_key() -> (r: (u16, PutResponse))
    ensures
        r.0 == STATUS_OK,
        r.0 == 200,
        r.1.message@ == "Key set"@,
{
    (STATUS_OK, PutResponse { message: "Key set".to_owned() })
}

/// The response to a request to delete a key, with its status.
pub fn delete_key() -> (r: (u16, DeleteResponse))
    ensures
        r.0 == STATUS_OK,
        r.0 == 200,
        r.1.message@ == "Key deleted"@,
{
    (STATUS_OK, DeleteResponse { message: "Key deleted".to_owned() })
}

} // verus!
