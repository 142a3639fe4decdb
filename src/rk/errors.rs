use vstd::prelude::*;

verus! {

/// Why an instance could not be built.
#[derive(Debug, Clone, Copy, PartialEq, Eq, Structural)]
pub enum Errors {
    FailedToParse,
    RowsDifferentLength,
}

impl Errors {
    /// A message describing the error.
    pub fn message(&self) -> (r: &str)
        ensures
            *self == Errors::FailedToParse ==> r@ == "Parse error"@,
            *self == Errors::RowsDifferentLength ==> r@ == "All rows must have the same length as the instance size"@,
    {
        match self {
            Errors::FailedToParse => "Parse error",
            Errors::RowsDifferentLength => "All rows must have the same length as the instance size",
        }
    }
}

} // verus!
