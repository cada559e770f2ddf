use catplush::config::{BorderWidth, CornerRadius};
use glam::Vec4;

#[test]
fn border_widths_as_a_vector() {
    assert_eq!(BorderWidth::new(1, 2, 3, 4).as_vec4(), Vec4::new(1.0, 2.0, 3.0, 4.0));
    assert_eq!(BorderWidth::all(3).as_vec4(), Vec4::splat(3.0));
    assert_eq!(BorderWidth::new(-1, 0, 7, 16_777_217).as_vec4(), Vec4::new(-1.0, 0.0, 7.0, 16_777_216.0));
}

#[test]
fn corner_radii_as_a_vector() {
    assert_eq!(CornerRadius::new(1, 2, 3, 4).as_vec4(), Vec4::new(1.0, 2.0, 3.0, 4.0));
    assert_eq!(CornerRadius::all(10).as_vec4(), Vec4::splat(10.0));
}
