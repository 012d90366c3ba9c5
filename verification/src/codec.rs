//! The codec, its model and the laws that hold of the model.

pub mod buffer;
pub mod chunk_codec;
pub mod framing;
pub mod laws;
pub mod lemmas;
pub mod text;

pub use chunk_codec::ChunkCodec;
pub use text::ChunkCodecError;
