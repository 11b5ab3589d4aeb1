//! What requests and responses hold.

use vstd::prelude::*;

verus! {

/// The body of a request to set a key.
#[derive(Debug, PartialEq, Eq)]
pub struct PutRequest {
    pub value: String,
}

/// The response to a request for a key: its value, or an error and no value.
#[derive(Debug, PartialEq, Eq)]
pub struct GetResponse {
    pub value: String,
    pub error: String,
}

/// The response to a request to set a key.
#[derive(Debug, PartialEq, Eq)]
pub struct PutResponse {
    pub message: String,
}

/// The response to a request to delete a key.
#[derive(Debug, PartialEq, Eq)]
pub struct DeleteResponse {
    pub message: String,
}

} // verus!
