//! Colours of tiles, objects and log lines.

use vstd::prelude::*;

verus! {

/// An RGB colour, as the console backend understands it.
#[derive(Clone, Copy, Debug, PartialEq, Eq, Structural)]
pub struct Color {
    pub r: u8,
    pub g: u8,
    pub b: u8,
}

/// Black, the colour of tiles that were never seen.
#[verifier::allow_in_spec]
pub fn black() -> Color
    returns
        (Color { r: 0, g: 0, b: 0 }),
{
    Color { r: 0, g: 0, b: 0 }
}

/// White.
#[verifier::allow_in_spec]
pub fn white() -> Color
    returns
        (Color { r: 255, g: 255, b: 255 }),
{
    Color { r: 255, g: 255, b: 255 }
}

/// Desaturated green.
#[verifier::allow_in_spec]
pub fn desaturated_green() -> Color
    returns
        (Color { r: 63, g: 127, b: 63 }),
{
    Color { r: 63, g: 127, b: 63 }
}

/// Light yellow.
#[verifier::allow_in_spec]
pub fn light_yellow() -> Color
    returns
        (Color { r: 255, g: 255, b: 63 }),
{
    Color { r: 255, g: 255, b: 63 }
}

/// Light green.
#[verifier::allow_in_spec]
pub fn light_green() -> Color
    returns
        (Color { r: 63, g: 255, b: 63 }),
{
    Color { r: 63, g: 255, b: 63 }
}

/// Light cyan.
#[verifier::allow_in_spec]
pub fn light_cyan() -> Color
    returns
        (Color { r: 63, g: 255, b: 255 }),
{
    Color { r: 63, g: 255, b: 255 }
}

/// Light blue.
#[verifier::allow_in_spec]
pub fn light_blue() -> Color
    returns
        (Color { r: 63, g: 63, b: 255 }),
{
    Color { r: 63, g: 63, b: 255 }
}

/// Light violet.
#[verifier::allow_in_spec]
pub fn light_violet() -> Color
    returns
        (Color { r: 159, g: 63, b: 255 }),
{
    Color { r: 159, g: 63, b: 255 }
}

/// Red.
#[verifier::allow_in_spec]
pub fn red() -> Color
    returns
        (Color { r: 255, g: 0, b: 0 }),
{
    Color { r: 255, g: 0, b: 0 }
}

/// Orange.
#[verifier::allow_in_spec]
pub fn orange() -> Color
    returns
        (Color { r: 255, g: 127, b: 0 }),
{
    Color { r: 255, g: 127, b: 0 }
}

/// Yellow.
#[verifier::allow_in_spec]
pub fn yellow() -> Color
    returns
        (Color { r: 255, g: 255, b: 0 }),
{
    Color { r: 255, g: 255, b: 0 }
}

/// Green.
#[verifier::allow_in_spec]
pub fn green() -> Color
    returns
        (Color { r: 0, g: 255, b: 0 }),
{
    Color { r: 0, g: 255, b: 0 }
}

/// Sky blue.
#[verifier::allow_in_spec]
pub fn sky() -> Color
    returns
        (Color { r: 0, g: 191, b: 255 }),
{
    Color { r: 0, g: 191, b: 255 }
}

/// Violet.
#[verifier::allow_in_spec]
pub fn violet() -> Color
    returns
        (Color { r: 127, g: 0, b: 255 }),
{
    Color { r: 127, g: 0, b: 255 }
}

/// Dark red.
#[verifier::allow_in_spec]
pub fn dark_red() -> Color
    returns
        (Color { r: 191, g: 0, b: 0 }),
{
    Color { r: 191, g: 0, b: 0 }
}

/// Darker green.
#[verifier::allow_in_spec]
pub fn darker_green() -> Color
    returns
        (Color { r: 0, g: 127, b: 0 }),
{
    Color { r: 0, g: 127, b: 0 }
}

/// A wall outside the field of view.
#[verifier::allow_in_spec]
pub fn dark_wall() -> Color
    returns
        (Color { r: 0, g: 0, b: 100 }),
{
    Color { r: 0, g: 0, b: 100 }
}

/// A wall inside the field of view.
#[verifier::allow_in_spec]
pub fn light_wall() -> Color
    returns
        (Color { r: 130, g: 110, b: 50 }),
{
    Color { r: 130, g: 110, b: 50 }
}

/// Floor outside the field of view.
#[verifier::allow_in_spec]
pub fn dark_ground() -> Color
    returns
        (Color { r: 50, g: 50, b: 150 }),
{
    Color { r: 50, g: 50, b: 150 }
}

/// Floor inside the field of view.
#[verifier::allow_in_spec]
pub fn light_ground() -> Color
    returns
        (Color { r: 200, g: 180, b: 50 }),
{
    Color { r: 200, g: 180, b: 50 }
}

} // verus!
