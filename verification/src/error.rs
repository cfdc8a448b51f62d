use vstd::prelude::*;

verus! {

/// The errors the store surfaces to its callers.
#[derive(Clone, Copy, Debug, PartialEq, Eq, Structural)]
pub enum KvErr {
    /// An underlying filesystem operation failed. The verified engine never
    /// produces this variant itself; it exists for the I/O shell around it.
    Io,
    /// A byte sequence does not decode to a valid record, or the header of a
    /// file image is corrupt.
    MalformedRecord,
    /// An encoded record would not fit the 16-bit length prefix.
    RecordTooLarge,
    /// `remove` was asked for a key that is absent from the index.
    KeyNotFound,
}

impl KvErr {
    /// A short description of the error, for callers that print one.
    pub fn describe(&self) -> (r: &'static str)
        ensures
            *self == KvErr::Io ==> r@ == "io error"@,
            *self == KvErr::MalformedRecord ==> r@ == "malformed record"@,
            *self == KvErr::RecordTooLarge ==> r@ == "record too large"@,
            *self == KvErr::KeyNotFound ==> r@ == "Key not found"@,
    {
        match self {
            KvErr::Io => "io error",
            KvErr::MalformedRecord => "malformed record",
            KvErr::RecordTooLarge => "record too large",
            KvErr::KeyNotFound => "Key not found",
        }
    }
}

} // verus!
