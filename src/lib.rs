//! LZSS compression of save data: a sliding window searched through a binary
//! tree of window positions, and a bitstream of flag-framed literals and
//! back-references.
use vstd::prelude::*;

pub mod decoder;
pub mod encoder;
pub mod format;
pub mod header;
pub mod laws;
pub mod match_tree;

pub use decoder::decompress;
pub use encoder::compress;
pub use format::DecodeError;
pub use header::{rewrite_header, Fileheader, HeaderError};

verus! {

} // verus!
