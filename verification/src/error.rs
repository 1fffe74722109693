use vstd::prelude::*;

verus! {

/// The error returned by clipping operations; it carries a message.
#[derive(Debug, Clone, PartialEq, Eq)]
pub struct ClipperError {
    pub message: String,
}

impl ClipperError {
    /// Builds an error carrying `message`.
    pub fn new(message: &str) -> (r: Self)
        ensures
            r.message@ == message@,
    {
        ClipperError { message: message.to_string() }
    }

    /// The error's message as an owned string.
    pub fn to_string(&self) -> (r: String)
        ensures
            r@ == self.message@,
    {
        self.message.clone()
    }
}

/// The result type of fallible operations of this library.
pub type Result<T> = std::result::Result<T, ClipperError>;

} // verus!
