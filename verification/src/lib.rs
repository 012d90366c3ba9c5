//! Delimiter-based framing of a byte stream into text messages.
//!
//! A [`ChunkCodec`] turns the bytes that accumulate in a [`bytes::BytesMut`]
//! into a sequence of delimiter-terminated messages, and writes messages back
//! out in the same wire form. Every function is verified against a
//! mathematical model of the framer, given in [`codec::framing`]; what holds
//! of that model on every input is proved in [`codec::laws`].

pub mod codec;

pub use codec::chunk_codec::ChunkCodec;
pub use codec::text::{utf8, ChunkCodecError};
