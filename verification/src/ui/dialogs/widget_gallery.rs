//! Labels of the widget gallery.
use vstd::prelude::*;

verus! {

#[derive(Clone, Copy, Debug, PartialEq, Eq)]
pub enum GalleryShape {
    Circle,
    Square,
    Triangle,
}

impl GalleryShape {
    /// The name shown for a shape.
    pub fn label(self) -> (r: &'static str)
        ensures
            r@ == (match self {
                GalleryShape::Circle => "Circle"@,
                GalleryShape::Square => "Square"@,
                GalleryShape::Triangle => "Triangle"@,
            }),
    {
        match self {
            GalleryShape::Circle => "Circle",
            GalleryShape::Square => "Square",
            GalleryShape::Triangle => "Triangle",
        }
    }
}

} // verus!
