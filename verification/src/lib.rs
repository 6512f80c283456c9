pub mod assoc;
pub mod codec;
pub mod msgqueue;
pub mod network;

pub use network::{Receiver, Sender};

use vstd::prelude::*;

verus! {

/// Result alias used throughout the library.
pub type UnrResult<T> = Result<T, UnrError>;

/// The error kinds surfaced by the library.
///
/// Filtered datagrams and stale or duplicate chunks are not errors: they are
/// dropped silently as normal protocol operation.
#[derive(Clone, Copy, Debug, PartialEq, Eq, Structural)]
pub enum UnrError {
    /// A transport send or receive failed.
    IoError,
    /// An encoded chunk record would exceed the configured datagram length,
    /// or the codec itself refused the record.
    EncodingError,
    /// An inbound datagram did not decode into a chunk record.
    DecodingError,
}

} // verus!
