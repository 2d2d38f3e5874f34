use vstd::prelude::*;

verus! {

/// Error kinds reported by the codecs and the stream and topic registry.
#[derive(Debug, Clone, Copy, PartialEq, Eq, Structural)]
pub enum IggyError {
    InvalidCommand,
    InvalidStreamId,
    InvalidTopicId,
    InvalidNumberValue,
    InvalidUtf8,
    MalformedFrame,
    InvalidPartitionsCount,
    ResourceNotFound,
    ResourceAlreadyExists,
    CorruptState,
}

} // verus!
