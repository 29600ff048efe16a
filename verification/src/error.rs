//! Errors of the object-file reader.

use vstd::prelude::*;

verus! {

/// An object file that could not be read, with the reason in words.
#[derive(Debug, Copy, Clone)]
pub struct ObjectError(pub &'static str);

impl ObjectError {
    /// The reason, as text to show.
    pub fn message(&self) -> (text: String)
        ensures
            text@ == self.0@,
    {
        self.0.to_owned()
    }
}

impl From<&'static str> for ObjectError {
    fn from(s: &'static str) -> (error: Self) {
        ObjectError(s)
    }
}

impl vstd::std_specs::convert::FromSpecImpl<&'static str> for ObjectError {
    open spec fn obeys_from_spec() -> bool {
        true
    }

    open spec fn from_spec(s: &'static str) -> Self {
        ObjectError(s)
    }
}

} // verus!
