//! The pure data of the VGA text console: the sixteen hardware colors and the
//! packed color code of one screen character. The writer that drives the
//! memory-mapped text buffer is bare-metal I/O and lives outside the library.
use vstd::prelude::*;

verus! {

/// The sixteen colors of the VGA text mode palette, in hardware order.
#[allow(dead_code)]
#[derive(Debug, Clone, Copy, PartialEq, Eq)]
pub enum Color {
    Black,
    Blue,
    Green,
    Cyan,
    Red,
    Magenta,
    Brown,
    LightGray,
    DarkGray,
    LightBlue,
    LightGreen,
    LightCyan,
    LightRed,
    Pink,
    Yellow,
    White,
}

impl Color {
    /// The color's 4-bit hardware number.
    pub open spec fn spec_as_u8(self) -> u8 {
        match self {
            Color::Black => 0,
            Color::Blue => 1,
            Color::Green => 2,
            Color::Cyan => 3,
            Color::Red => 4,
            Color::Magenta => 5,
            Color::Brown => 6,
            Color::LightGray => 7,
            Color::DarkGray => 8,
            Color::LightBlue => 9,
            Color::LightGreen => 10,
            Color::LightCyan => 11,
            Color::LightRed => 12,
            Color::Pink => 13,
            Color::Yellow => 14,
            Color::White => 15,
        }
    }

    /// The color's 4-bit hardware number.
    pub fn as_u8(self) -> (r: u8)
        ensures
            r == self.spec_as_u8(),
    {
        match self {
            Color::Black => 0,
            Color::Blue => 1,
            Color::Green => 2,
            Color::Cyan => 3,
            Color::Red => 4,
            Color::Magenta => 5,
            Color::Brown => 6,
            Color::LightGray => 7,
            Color::DarkGray => 8,
            Color::LightBlue => 9,
            Color::LightGreen => 10,
            Color::LightCyan => 11,
            Color::LightRed => 12,
            Color::Pink => 13,
            Color::Yellow => 14,
            Color::White => 15,
        }
    }
}

/// The foreground and background colors of one screen character, packed as
/// the hardware stores them: background in the high four bits, foreground in
/// the low four.
#[derive(Debug, Clone, Copy, PartialEq, Eq)]
pub struct ColorCode(pub u8);

impl ColorCode {
    /// Packs a foreground and a background color into one byte.
    pub fn new(foreground: Color, background: Color) -> (r: ColorCode)
        ensures
            r.0 == background.spec_as_u8() * 16 + foreground.spec_as_u8(),
    {
        let f = foreground.as_u8();
        let b = background.as_u8();
        proof {
            assert((b << 4) | f == b * 16 + f) by (bit_vector)
                requires
                    f < 16 && b < 16,
            ;
        }
        ColorCode((b << 4) | f)
    }
}

} // verus!
