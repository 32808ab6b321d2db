//! A verified decoder for the PNG image container: chunk-stream parsing,
//! compressed-stream reassembly, and scanline defiltering, with zlib
//! decompression delegated to an external inflate implementation.

pub mod decoder;
pub mod error;
pub mod filtering;
pub mod grammar;
pub mod inflate;
pub mod parse;
