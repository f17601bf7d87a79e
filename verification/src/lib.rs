//! Content-defined chunking of a file into a chunk store and an index, and
//! reassembly of the file from them.

pub mod codec;
pub mod rolling;
pub mod chunker;
pub mod assembler;
pub mod extracter;
pub mod roundtrip;
