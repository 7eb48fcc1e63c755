//! Encoder for version 2 pack index files: the fan-out table, the offset
//! fields with their large-offset table, and the byte layout with its
//! trailing digest, each stated against a model in spec functions.

pub mod bytes;
pub mod decode;
pub mod fanout;
pub mod index;
pub mod offsets;
pub mod prompt;
