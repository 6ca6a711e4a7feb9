use vstd::prelude::*;

verus! {

/// The ways an operation on the store can fail.
#[derive(Debug, PartialEq, Eq)]
pub enum StoreError {
    /// Reading or writing the backing file failed; holds the system's message.
    IoFailure(String),
    /// A non-empty line of the stored text has no tab between key and value.
    MalformedRecord,
    /// A key or value holds a tab or a newline, which the text format reserves.
    EncodingConflict,
}

} // verus!
