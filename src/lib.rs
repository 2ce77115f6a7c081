//! Frames of a RESP-style wire protocol: a decoder from bytes to frames, a
//! command processor that answers `PING`, an encoder back to bytes, and the
//! decisions of a connection that runs them on each read.
pub mod connection;
pub mod decode;
pub mod frame;
pub mod process;
pub mod round_trip;
