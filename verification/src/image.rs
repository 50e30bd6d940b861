//! Image shape decisions.

use vstd::prelude::*;

verus! {

/// A page is landscape when it is wider than tall.
pub open spec fn landscape_spec(dimensions: Option<(u32, u32)>) -> bool {
    match dimensions {
        Some((w, h)) => w > 0 && h > 0 && w > h,
        None => false,
    }
}

/// Check if an image is landscape (width > height), given the dimensions
/// read from its header (`None` when they could not be read).
///
/// The aspect ratio of an unreadable or empty image counts as 0.7, so such
/// an image is portrait. For readable dimensions, width/height as a double
/// exceeds 1.0 exactly when the width exceeds the height, which is what is
/// compared here.
pub fn is_landscape(dimensions: Option<(u32, u32)>) -> (landscape: bool)
    ensures
        landscape == landscape_spec(dimensions),
{
    match dimensions {
        Some((w, h)) => w > 0 && h > 0 && w > h,
        None => false,
    }
}

} // verus!
