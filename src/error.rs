//! An error that carries only a message.

use vstd::prelude::*;

verus! {

/// An error described by a message alone.
pub struct MiscellaneousError(pub String);

impl MiscellaneousError {
    /// An error with the message `message`.
    pub fn new(message: String) -> (r: MiscellaneousError)
        ensures
            r.0@ == message@,
    {
        MiscellaneousError(message)
    }

    /// The message.
    pub fn message(&self) -> (r: String)
        ensures
            r@ == self.0@,
    {
        self.0.clone()
    }
}

} // verus!
