//! The error that the REST API answers with.

use vstd::prelude::*;

verus! {

/// An error of a REST request, with its message.
#[derive(Debug, Clone)]
pub struct ApiError(String);

impl ApiError {
    /// An error with a message.
    pub fn new(message: String) -> (e: Self)
        ensures
            e.message_view() == message@,
    {
        ApiError(message)
    }

    /// The message.
    pub closed spec fn message_view(&self) -> Seq<char> {
        self.0@
    }

    /// The message.
    pub fn message(&self) -> (m: &str)
        ensures
            m@ == self.message_view(),
    {
        self.0.as_str()
    }
}

} // verus!
