//! The library's diagnostic value: a numeric code, a numeric subcode and a text.
use vstd::prelude::*;

verus! {

/// A failure reported with libheif's numeric code, subcode and message.
#[derive(Clone, Debug)]
pub struct Error {
    pub code: i32,
    pub subcode: i32,
    pub message: String,
}

impl Error {
    /// The code, subcode and message text of a failure.
    pub open spec fn parts(&self) -> (i32, i32, Seq<char>) {
        (self.code, self.subcode, self.message@)
    }

    /// A failure with the given code, subcode and text.
    pub fn new(code: i32, subcode: i32, message: &str) -> (r: Error)
        ensures
            r.parts() == (code, subcode, message@),
    {
        Error { code, subcode, message: message.to_owned() }
    }

    /// The failure reported when memory cannot be reserved.
    pub fn allocation() -> (r: Error)
        ensures
            r.parts() == (6i32, 0i32, "Out of memory"@),
    {
        Error::new(6, 0, "Out of memory")
    }
}

} // verus!
