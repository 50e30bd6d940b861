//! Conversion of images to terminal graphics with the chafa library. The
//! library itself (decoding the image, the canvas, the rendering) is driven
//! by the caller; what it hands back is checked and framed here.

use vstd::prelude::*;
use vstd::utf8::encode_utf8;

verus! {

/// Pixel mode for chafa output.
#[derive(Debug, Clone, Copy, PartialEq, Eq, Structural)]
pub enum PixelMode {
    /// ANSI art using character symbols
    Symbols,
    /// Sixel graphics format
    Sixels,
    /// Kitty terminal graphics protocol
    Kitty,
    /// iTerm2 terminal graphics protocol
    Iterm2,
}

/// The result of converting an image: the escape sequence text chafa
/// printed for it, as bytes, with the canvas size in cells; nothing when
/// chafa printed nothing.
pub fn convert_image(ansi: &str, term_cols: u32, term_rows: u32) -> (out: Option<(Vec<u8>, (u32, u32))>)
    ensures
        ansi@.len() == 0 <==> out is None,
        out matches Some(r) ==> r.0@ == encode_utf8(ansi@) && r.1 == (term_cols, term_rows),
{
    if ansi.is_empty() {
        return None;
    }
    let bytes = ansi.as_bytes();
    let mut data: Vec<u8> = Vec::new();
    let mut i: usize = 0;
    while i < bytes.len()
        invariant
            i <= bytes@.len(),
            data@ == bytes@.take(i as int),
        decreases bytes.len() - i,
    {
        data.push(bytes[i]);
        assert(bytes@.take(i + 1) =~= bytes@.take(i as int).push(bytes[i as int]));
        i = i + 1;
    }
    assert(bytes@.take(i as int) =~= bytes@);
    Some((data, (term_cols, term_rows)))
}

} // verus!
