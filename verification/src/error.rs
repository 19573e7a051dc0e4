//! Error type shared by the whole library.
use vstd::prelude::*;

verus! {

/// `std::io::Error`, carried unchanged inside [`SproqetError::Io`].
#[verifier::external_type_specification]
#[verifier::external_body]
pub struct ExIoError(std::io::Error);

/// Every fallible operation in Sproqet returns one of these.
#[derive(Debug)]
pub enum SproqetError {
    /// The deserializer ran off the end of a buffer: a frame was
    /// truncated, or a length prefix promised more data than follows.
    BufferUnderflow,
    /// A variant on the wire carries a type ID this implementation does
    /// not know. Fatal: an unknown variant's length cannot be skipped.
    UnknownTypeId(u8),
    /// A transport-level I/O error.
    Io(std::io::Error),
    /// The link was stopped, or the transport signalled end of stream.
    ConnectionClosed,
}

} // verus!
