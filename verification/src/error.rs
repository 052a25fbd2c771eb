use vstd::prelude::*;

verus! {

/// A fatal ingestion or snapshot failure. I/O failures stay with the
/// caller that does the I/O; "no match" on lookup is an ordinary outcome,
/// not an error.
#[derive(Copy, Clone, Debug, PartialEq, Eq, Structural)]
pub enum Error {
    /// A malformed numeric field in a corpus row aborted the build.
    ParseInt,
    /// A snapshot blob that does not decompress or decode.
    Corrupt,
}

impl Error {
    /// A short description of the failure.
    pub fn message(&self) -> (r: &'static str)
        ensures
            *self == Error::ParseInt ==> r@ == "malformed numeric field in corpus row"@,
            *self == Error::Corrupt ==> r@ == "corrupt snapshot"@,
    {
        match self {
            Error::ParseInt => "malformed numeric field in corpus row",
            Error::Corrupt => "corrupt snapshot",
        }
    }
}

} // verus!
