//! Canvas coordinates.
//!
//! Trains are stored as **canvas-pixel** coordinates: a single 224x224 grid at
//! 1250 m/pixel covering the Netherlands. The display is 64x64; each map mode
//! projects from canvas pixels to display pixels with a simple linear
//! transform, see [`crate::map_mode`].
//!
//! Keeping coordinates at canvas resolution avoids repeating the geographic
//! transform on every snapshot rebuild while still supporting modes that zoom
//! into a part of the country.
use vstd::prelude::*;

verus! {

/// One side of the virtual canvas, in pixels. 280 km / 1250 m = 224.
pub const CANVAS_SIDE: u8 = 224;

/// One side of the display, in pixels.
pub const DISPLAY_SIDE: u8 = 64;

/// Canvas-pixel coordinate. Values at or above [`CANVAS_SIDE`] are off-canvas
/// sentinels (trains far outside the country); filter with
/// [`PixelCoord::is_on_canvas`].
#[derive(Debug, Clone, Copy, PartialEq, Eq, Structural)]
pub struct PixelCoord {
    pub x: u8,
    pub y: u8,
}

impl PixelCoord {
    /// Both coordinates lie on the canvas.
    pub open spec fn on_canvas(self) -> bool {
        self.x < CANVAS_SIDE && self.y < CANVAS_SIDE
    }

    /// The coordinate as one number: columns first, then rows.
    pub open spec fn key(self) -> u16 {
        (self.x * 256 + self.y) as u16
    }

    pub fn is_on_canvas(&self) -> (r: bool)
        ensures
            r == self.on_canvas(),
    {
        self.x < CANVAS_SIDE && self.y < CANVAS_SIDE
    }

    /// Pack the coordinate into one sortable number.
    pub fn as_u16(&self) -> (r: u16)
        ensures
            r == self.key(),
            r == self.x * 256 + self.y,
    {
        let x: u16 = self.x as u16;
        let y: u16 = self.y as u16;
        proof {
            assert(((x << 8) | y) == (x * 256 + y) as u16) by (bit_vector)
                requires
                    x < 256,
                    y < 256,
            ;
        }
        (x << 8) | y
    }

    /// Unpack a number made by [`PixelCoord::as_u16`].
    pub fn from_u16(key: u16) -> (r: PixelCoord)
        ensures
            r.x == key / 256,
            r.y == key % 256,
            r.key() == key,
    {
        proof {
            assert((key >> 8) == key / 256 && (key & 0xff) == key % 256) by (bit_vector);
        }
        PixelCoord { x: (key >> 8) as u8, y: (key & 0xff) as u8 }
    }
}

/// Packing a coordinate loses nothing: two coordinates with the same key are
/// the same coordinate.
pub proof fn law_key_is_injective(a: PixelCoord, b: PixelCoord)
    requires
        a.key() == b.key(),
    ensures
        a == b,
{
}

/// The key of a coordinate has the column in its high byte and the row in its low
/// byte; the canvas has 224 of each.
pub proof fn law_key_layout(c: PixelCoord)
    ensures
        c.key() / 256 == c.x,
        c.key() % 256 == c.y,
        c.on_canvas() <==> c.x <= 223 && c.y <= 223,
{
}

} // verus!
