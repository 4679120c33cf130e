//! Framing for the CTMP byte-stream protocol: a frame value with inline
//! storage for short payloads, a bounded FIFO of frames, and an incremental
//! parser that cuts frames out of a byte stream.
use vstd::prelude::*;

pub mod buffer;
pub mod ctmp;
pub mod parser;

verus! {

#[verifier::external_type_specification]
#[verifier::external_body]
pub struct ExIoError(std::io::Error);

/// Errors reported by the library and by the listener around it.
#[derive(Debug)]
pub enum Error {
    /// A frame was offered to a full frame buffer.
    BufferWriteOverflow,
    /// The listening socket could not be bound.
    SocketListenerFaliure(std::io::Error),
    /// Accepting the client connection failed.
    ClientAcceptError(std::io::Error),
    /// Reading from the client connection failed.
    TcpReadError(std::io::Error),
}

} // verus!
