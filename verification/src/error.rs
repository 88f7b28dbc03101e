use vstd::prelude::*;

verus! {

/// Errors raised while decoding palettes and SHP files.
#[derive(Debug, Clone, Copy, PartialEq, Eq, Structural)]
pub enum Ra2Error {
    /// The input ended before a value that had to be read.
    UnexpectedEof,
    /// A palette must be exactly 256 * 3 bytes long.
    InvalidPaletteLength,
}

} // verus!
