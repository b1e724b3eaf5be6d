//! Error kinds raised while aggregating a trace.

use vstd::prelude::*;

verus! {

/// The kinds of failure the aggregation pipeline distinguishes.
///
/// `InvalidDirectory` and `IoFailure` are raised by the I/O shell around the
/// library; `MalformedRecord` and `InvalidTimestamp` are raised by the
/// verified record handling itself. An out-of-range matrix read is a
/// programming-contract violation and is excluded by a precondition instead
/// of a variant.
#[derive(Clone, Copy, Debug, PartialEq, Eq, Structural)]
pub enum TraceError {
    /// A given path does not exist or is not a directory.
    InvalidDirectory,
    /// Reading an input file or writing an output file failed.
    IoFailure,
    /// A row could not be parsed into the four expected fields.
    MalformedRecord,
    /// A timestamp precedes the trace epoch.
    InvalidTimestamp,
}

/// A boxed error value carrying a human-readable description.
#[derive(Debug)]
pub struct GoogleLoadParseError {
    description: String,
}

impl GoogleLoadParseError {
    /// The characters of the stored description.
    pub closed spec fn spec_description(&self) -> Seq<char> {
        self.description@
    }

    /// Wraps a description into a boxed error.
    pub fn new_boxed(description: String) -> (r: Box<GoogleLoadParseError>)
        ensures
            (*r).spec_description() == description@,
    {
        Box::new(GoogleLoadParseError { description })
    }

    /// The stored description.
    pub fn description(&self) -> (r: &String)
        ensures
            r@ == self.spec_description(),
    {
        &self.description
    }
}

} // verus!
