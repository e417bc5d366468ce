//! Failures of exchange and synchronization.

use vstd::prelude::*;
use vstd::string::*;

verus! {

/// A failure, as the text that users see.
#[derive(Debug)]
pub struct TransportError {
    pub message: String,
}

impl View for TransportError {
    type V = Seq<char>;

    open spec fn view(&self) -> Seq<char> {
        self.message@
    }
}

impl TransportError {
    /// The failure with a text.
    pub fn new(message: String) -> (error: Self)
        ensures
            error@ == message@,
    {
        TransportError { message }
    }

    /// The text.
    pub fn to_string(&self) -> (text: String)
        ensures
            text@ == self@,
    {
        self.message.as_str().to_owned()
    }
}

} // verus!
