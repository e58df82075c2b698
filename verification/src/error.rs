//! What can go wrong.

use vstd::prelude::*;

verus! {

/// The kind of an input/output failure.
#[derive(Clone, Copy, Debug, PartialEq, Eq, Structural)]
pub enum IoErrorKind {
    /// A read asked for bytes beyond the end of a segment.
    UnexpectedEof,
    /// An index entry names a segment that is not there.
    NotFound,
    /// An append would make a segment longer than the machine can address.
    FileTooLarge,
    /// No segment id is left for a new segment.
    StorageFull,
    /// The segments chosen for a merge are not ones that can be merged.
    InvalidInput,
}

/// The error type of the engine and of what stands around it.
#[derive(Debug, PartialEq, Eq)]
pub enum KvsError {
    /// A value could not be serialized or deserialized.
    SerdeError(String),
    /// The channel to the engine is closed.
    FlumeError(String),
    /// `remove` was called for a key that has no live record.
    KeyNotFound,
    /// An input/output failure.
    Io(IoErrorKind),
    /// A record failed its checksum, or a segment ended in the middle of one.
    Corrupt,
    /// Bytes that should be UTF-8 are not.
    Parsing,
    /// Any other failure, by its message.
    Whatever(String),
}

impl KvsError {
    /// The error in words.
    pub open spec fn spec_message(&self) -> Seq<char> {
        match self {
            KvsError::SerdeError(_) => "error de/serializing"@,
            KvsError::FlumeError(_) => "flume error"@,
            KvsError::KeyNotFound => "key not found"@,
            KvsError::Io(_) => "IO error"@,
            KvsError::Corrupt => "corrupt record"@,
            KvsError::Parsing => "bytes to utf8"@,
            KvsError::Whatever(text) => text@,
        }
    }

    /// The error in words.
    pub fn message(&self) -> (text: String)
        ensures
            text@ == self.spec_message(),
    {
        match self {
            KvsError::SerdeError(_) => "error de/serializing".to_owned(),
            KvsError::FlumeError(_) => "flume error".to_owned(),
            KvsError::KeyNotFound => "key not found".to_owned(),
            KvsError::Io(_) => "IO error".to_owned(),
            KvsError::Corrupt => "corrupt record".to_owned(),
            KvsError::Parsing => "bytes to utf8".to_owned(),
            KvsError::Whatever(text) => text.clone(),
        }
    }
}

/// The result type of the engine.
pub type Result<T> = core::result::Result<T, KvsError>;

} // verus!
