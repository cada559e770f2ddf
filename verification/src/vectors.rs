use crate::config::{BorderWidth, CornerRadius};
use vstd::prelude::*;

verus! {

/// `glam::Vec4`: four floating-point numbers, which this library only
/// hands on.
#[verifier::external_type_specification]
#[verifier::external_body]
pub struct ExVec4(glam::Vec4);

/// The vector that `glam` makes of four whole numbers.
pub uninterp spec fn vec4_of(x: int, y: int, z: int, w: int) -> glam::Vec4;

/// `glam::IVec4::as_vec4` on the vector that `glam::IVec4::new` makes of
/// the four numbers: each of them as a floating-point number, in the same
/// order. The contract says no more than that the same numbers give the
/// same vector.
#[verifier::external_body]
fn ints_as_vec4(x: i32, y: i32, z: i32, w: i32) -> (v: glam::Vec4)
    ensures
        v == vec4_of(x as int, y as int, z as int, w as int),
{
    glam::IVec4::new(x, y, z, w).as_vec4()
}

impl CornerRadius {
    /// The radii as a vector: top right, bottom right, bottom left, top left.
    pub fn as_vec4(&self) -> (v: glam::Vec4)
        ensures
            v == vec4_of(
                self.top_right as int,
                self.bottom_right as int,
                self.bottom_left as int,
                self.top_left as int,
            ),
    {
        ints_as_vec4(self.top_right, self.bottom_right, self.bottom_left, self.top_left)
    }
}

impl BorderWidth {
    /// The widths as a vector: top, right, bottom, left.
    pub fn as_vec4(&self) -> (v: glam::Vec4)
        ensures
            v == vec4_of(self.top as int, self.right as int, self.bottom as int, self.left as int),
    {
        ints_as_vec4(self.top, self.right, self.bottom, self.left)
    }
}

} // verus!
