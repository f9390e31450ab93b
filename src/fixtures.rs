//! A fixed response value used when exercising a server built on the router.

use vstd::prelude::*;

verus! {

/// A message with an HTTP status code.
pub struct SimpleResponse {
    pub message: String,
    pub status: u16,
}

/// The greeting response: `Hello, World!` with status 200.
pub fn create_simple() -> (r: SimpleResponse)
    ensures
        r.message@ == "Hello, World!"@,
        r.status == 200,
{
    SimpleResponse { message: "Hello, World!".to_owned(), status: 200 }
}

} // verus!
