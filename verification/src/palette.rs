//! 256-colour palettes (PAL files).
use crate::error::Ra2Error;
use vstd::prelude::*;

verus! {

/// The number of bytes of a PAL file: 256 colours of three bytes each.
pub const PALETTE_BYTES: usize = 768;

/// One palette entry.
#[derive(Debug, Clone, Copy, PartialEq, Eq, Structural)]
pub struct PalColor {
    pub red: u8,
    pub green: u8,
    pub blue: u8,
}

/// An RGBA pixel as four channels.
pub type Rgba = (u8, u8, u8, u8);

/// The fully transparent pixel.
pub open spec fn transparent() -> Rgba {
    (0u8, 0u8, 0u8, 0u8)
}

/// Channel `c` (0 red, 1 green, 2 blue, 3 alpha) of a pixel.
pub open spec fn channel(p: Rgba, c: int) -> u8 {
    if c == 0 {
        p.0
    } else if c == 1 {
        p.1
    } else if c == 2 {
        p.2
    } else {
        p.3
    }
}

impl PalColor {
    /// The opaque pixel of this colour.
    pub open spec fn spec_rgba(self) -> Rgba {
        (self.red, self.green, self.blue, 255u8)
    }

    /// The opaque pixel of this colour.
    pub fn to_rgba(&self) -> (r: Rgba)
        ensures
            r == self.spec_rgba(),
    {
        (self.red, self.green, self.blue, 255u8)
    }
}

/// The colour that entry `i` of a PAL file's bytes describes.
pub open spec fn palette_entry(bytes: Seq<u8>, i: int) -> PalColor {
    PalColor { red: bytes[3 * i], green: bytes[3 * i + 1], blue: bytes[3 * i + 2] }
}

/// The 256 colours that a PAL file's bytes describe.
pub open spec fn palette_colors(bytes: Seq<u8>) -> Seq<PalColor> {
    Seq::new(256, |i: int| palette_entry(bytes, i))
}

pub struct Palette {
    /// The 256 colors in palette
    pub colors: [PalColor; 256],
}

impl Palette {
    /// The colour at `index`.  Every `u8` is a valid index, so this never fails.
    pub fn get_color(&self, index: u8) -> (r: Result<PalColor, Ra2Error>)
        ensures
            r == Ok::<PalColor, Ra2Error>(self.colors@[index as int]),
    {
        Ok(self.colors[index as usize])
    }

    /// Decodes a PAL file: exactly 256 colours of three bytes (red, green,
    /// blue) each.  Any other length is refused.
    pub fn decode(bytes: &[u8]) -> (r: Result<Palette, Ra2Error>)
        ensures
            bytes@.len() != PALETTE_BYTES ==> r == Err::<Palette, Ra2Error>(
                Ra2Error::InvalidPaletteLength,
            ),
            bytes@.len() == PALETTE_BYTES ==> (r matches Ok(p) && p.colors@ == palette_colors(
                bytes@,
            )),
    {
        if bytes.len() != PALETTE_BYTES {
            return Err(Ra2Error::InvalidPaletteLength);
        }
        let mut colors: [PalColor; 256] = [PalColor { red: 0, green: 0, blue: 0 }; 256];
        let mut i: usize = 0;
        while i < 256
            invariant
                bytes@.len() == PALETTE_BYTES,
                i <= 256,
                colors@.len() == 256,
                forall|j: int| 0 <= j < i ==> #[trigger] colors@[j] == palette_entry(bytes@, j),
            decreases 256 - i,
        {
            colors[i] = PalColor {
                red: bytes[i * 3],
                green: bytes[i * 3 + 1],
                blue: bytes[i * 3 + 2],
            };
            i += 1;
        }
        let p = Palette { colors };
        assert(p.colors@ =~= palette_colors(bytes@));
        Ok(p)
    }
}

/// Reading entry `index` back from a decoded palette gives the three bytes
/// that the PAL file holds for it, in the order red, green, blue.
pub proof fn lemma_decoded_color_is_file_triple(bytes: Seq<u8>, p: Palette, index: u8)
    requires
        bytes.len() == PALETTE_BYTES,
        p.colors@ == palette_colors(bytes),
    ensures
        p.colors@[index as int].red == bytes[3 * index],
        p.colors@[index as int].green == bytes[3 * index + 1],
        p.colors@[index as int].blue == bytes[3 * index + 2],
{
}

} // verus!
