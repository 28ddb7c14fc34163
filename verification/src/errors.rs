use vstd::prelude::*;

verus! {

/// The failures the library reports.
#[derive(Debug, PartialEq, Eq, Structural, Clone, Copy)]
pub enum Error {
    /// Checking found nothing to report: no unmatched word.
    NoRegexMatches,
    /// A persisted row does not parse into the expected shape.
    MalformedRecord,
}

impl Error {
    /// A short description of the failure.
    pub fn message(&self) -> (r: &'static str)
        ensures
            self is NoRegexMatches ==> r@ == "NoRegexMatches"@,
            self is MalformedRecord ==> r@ == "MalformedRecord"@,
    {
        match self {
            Error::NoRegexMatches => "NoRegexMatches",
            Error::MalformedRecord => "MalformedRecord",
        }
    }
}

} // verus!
