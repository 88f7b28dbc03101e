//! The 8-byte header at the start of a SHP file.
use crate::bytes::le_u16;
use vstd::prelude::*;

verus! {

pub struct ShpHeader {
    pub _reserved: u16,
    /// The width of the canvas every frame is drawn on.
    pub width: u16,
    /// The height of the canvas every frame is drawn on.
    pub height: u16,
    pub number_of_frames: u16,
}

impl ShpHeader {
    /// Whether this header holds the four little-endian 16-bit values at the
    /// start of `file`: reserved, width, height, number of frames.
    pub open spec fn is_read_from(&self, file: Seq<u8>) -> bool {
        &&& self._reserved == le_u16(file, 0)
        &&& self.width == le_u16(file, 2)
        &&& self.height == le_u16(file, 4)
        &&& self.number_of_frames == le_u16(file, 6)
    }
}


/// A header read from a file holds the little-endian 16-bit values of bytes
/// 0..2, 2..4, 4..6 and 6..8, each one exactly, odd or even.
pub proof fn lemma_header_fields(h: ShpHeader, file: Seq<u8>)
    requires
        h.is_read_from(file),
    ensures
        h._reserved == file[0] + 256 * file[1],
        h.width == file[2] + 256 * file[3],
        h.height == file[4] + 256 * file[5],
        h.number_of_frames == file[6] + 256 * file[7],
{
}

} // verus!
