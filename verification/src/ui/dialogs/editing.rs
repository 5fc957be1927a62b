//! Labels of the editing dialogs.
use vstd::prelude::*;

verus! {

/// How a closed shape is filled.
#[derive(Clone, Copy, Debug, PartialEq, Eq)]
pub enum FillStyle {
    Clear,
    Crosses,
    Slashes,
    Solid,
}

/// The name shown for a fill style.
pub fn fill_style_label(style: FillStyle) -> (r: &'static str)
    ensures
        r@ == (match style {
            FillStyle::Clear => "Clear"@,
            FillStyle::Crosses => "Crosses"@,
            FillStyle::Slashes => "Slashes"@,
            FillStyle::Solid => "Solid"@,
        }),
{
    match style {
        FillStyle::Clear => "Clear",
        FillStyle::Crosses => "Crosses",
        FillStyle::Slashes => "Slashes",
        FillStyle::Solid => "Solid",
    }
}

} // verus!
