use vstd::prelude::*;

verus! {

/// One pixel value: four 8-bit channels (red, green, blue, alpha).
#[derive(Clone, Copy, PartialEq, Eq, Structural, Debug)]
pub struct PixelColor {
    pub r: u8,
    pub g: u8,
    pub b: u8,
    pub a: u8,
}

/// Brightness above which any of the red, green or blue channels makes a
/// pixel count as background.
pub const BACKGROUND_THRESHOLD: u8 = 128;

/// A pixel is background when any of its red, green or blue channels exceeds
/// the brightness threshold; alpha is ignored.
pub open spec fn is_background_spec(c: PixelColor) -> bool {
    c.r > BACKGROUND_THRESHOLD || c.g > BACKGROUND_THRESHOLD || c.b > BACKGROUND_THRESHOLD
}

/// The fixed color written over every pixel claimed by a detected object:
/// opaque white.
pub open spec fn erased_color() -> PixelColor {
    PixelColor { r: 255, g: 255, b: 255, a: 255 }
}

/// The default fill of a freshly allocated cropped image: transparent black.
pub open spec fn default_fill() -> PixelColor {
    PixelColor { r: 0, g: 0, b: 0, a: 0 }
}

/// Classifies a pixel as background (bright) or foreground (part of a
/// candidate object). Total over all colors.
pub fn is_background_color(c: PixelColor) -> (r: bool)
    ensures
        r == is_background_spec(c),
{
    c.r > BACKGROUND_THRESHOLD || c.g > BACKGROUND_THRESHOLD || c.b > BACKGROUND_THRESHOLD
}

/// Builds the erasure color.
pub fn erased_pixel() -> (c: PixelColor)
    ensures
        c == erased_color(),
{
    PixelColor { r: 255, g: 255, b: 255, a: 255 }
}

} // verus!
