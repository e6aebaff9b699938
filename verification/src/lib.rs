//! A framed transport discipline for datagram networks: an input byte stream
//! is split into bounded-size chunks, each chunk is tagged with a control
//! marker describing its position in the stream, and the receiving side folds
//! tagged payloads back into the original byte stream.
//!
//! The socket plumbing that carries frames over UDP lives outside this crate;
//! everything here is pure logic over bytes and is verified.

pub mod chunker;
pub mod codec;
pub mod framer;
pub mod reassembler;
pub mod support;

pub use chunker::FileChunkInfo;
pub use chunker::MAX_CHUNK_SIZE;
pub use codec::ControlCommand;
pub use framer::Packet;
pub use reassembler::Reassembler;
pub use reassembler::ReassemblyOutcome;
