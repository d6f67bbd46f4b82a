use vstd::prelude::*;

pub mod archive;
pub mod args;
pub mod dearchive;
pub mod error;
pub mod lz77;
pub mod lz78;
pub mod obfuscate;
pub mod utf8;
pub mod wire;

verus! {

/// Sliding-window search buffer size used by the archiver's default configuration.
pub const SEARCH_BUFFER_SIZE: usize = 256;

/// Lookahead buffer size used by the archiver's default configuration.
pub const LOOKAHEAD_BUFFER_SIZE: usize = 64;

} // verus!
