//! Frames messages and parses framed messages.  Encode with a [framer::Framer]
//! and decode with a [parser::Parser].
//!
//! A frame is a varint length (of the header and the payload), a three-byte
//! header (a namespace byte and a big-endian `u16` id) and the payload.
mod bytes_io;
pub mod varint;
pub mod header;
pub mod message;
pub mod framer;
pub mod parser;
