use catplush::bitmap::{BitmapConfiguration, PixelSize};
use catplush::color::ObjectColor;
use catplush::config::{
    BorderWidth, ChildAlignment, ChildLayoutDirection, ChildXAlignment, ChildYAlignment,
    CornerRadius, LayoutConfig, Padding, SizeLimit, Sizing, SizingMode,
};
use catplush::element::{find_line_feeds, scale, CatplushTextureData, ObjectType, UiElement};
use catplush::tree::CatplushContext;

fn texture() -> CatplushTextureData {
    CatplushTextureData { texture_id: 3, width: 200, height: 100 }
}

fn font() -> BitmapConfiguration {
    BitmapConfiguration {
        texture: 7,
        texture_size: PixelSize { x: 285, y: 120 },
        cell_size: PixelSize { x: 15, y: 24 },
        character_list: " \nabcdefghijklmnopqrstuvwxyzCEFIl".to_string(),
        characters_per_row: 19,
    }
}

fn image_of(element: &UiElement) -> (i32, i32) {
    match &element.object_type {
        ObjectType::Image(data) => {
            assert_eq!(data.texture_id, 3);
            assert_eq!(
                element.layout.sizing,
                Sizing { width: SizingMode::Fixed(data.width), height: SizingMode::Fixed(data.height) }
            );
            (data.width, data.height)
        }
        _ => panic!("the element is an image"),
    }
}

#[test]
fn a_new_element_has_nothing_set() {
    let element = UiElement::new();
    assert!(matches!(element.object_type, ObjectType::Unset));
    assert_eq!(element.id, None);
    assert_eq!(element.layout, LayoutConfig::default());
    assert_eq!(element.color, ObjectColor::transparent());
    assert_eq!(element.stroke_color, ObjectColor::transparent());
    assert_eq!(element.corner_radius, CornerRadius::all(0));
    assert_eq!(element.border_width, BorderWidth::all(0));
    assert_eq!(UiElement::default().layout, LayoutConfig::default());
}

#[test]
fn rectangle_and_border_set_the_looks() {
    let element = UiElement::new()
        .rectangle(ObjectColor::red(), CornerRadius::all(4))
        .border(ObjectColor::blue(), BorderWidth::new(1, 2, 3, 4));
    assert!(matches!(element.object_type, ObjectType::Rectangle));
    assert_eq!(element.color, ObjectColor::red());
    assert_eq!(element.corner_radius, CornerRadius::all(4));
    assert_eq!(element.stroke_color, ObjectColor::blue());
    assert_eq!(element.border_width, BorderWidth::new(1, 2, 3, 4));
    assert_eq!(element.layout, LayoutConfig::default());
    let bordered = UiElement::new().border(ObjectColor::blue(), BorderWidth::all(1));
    assert!(matches!(bordered.object_type, ObjectType::Unset));
}

#[test]
fn setters_change_one_field_each() {
    let base = LayoutConfig::default();
    assert_eq!(UiElement::new().child_gap(7).layout, LayoutConfig { child_gap: 7, ..base });
    assert_eq!(
        UiElement::new().padding(Padding::hv(2, 3)).layout,
        LayoutConfig { padding: Padding::hv(2, 3), ..base }
    );
    assert_eq!(
        UiElement::new().sizing(SizingMode::Grow, SizingMode::Fixed(9)).layout,
        LayoutConfig { sizing: Sizing::new(SizingMode::Grow, SizingMode::Fixed(9)), ..base }
    );
    assert_eq!(UiElement::new().keep_aspect_ratio().layout, base);
    assert_eq!(
        UiElement::new().grow_elements_unevenly().layout,
        LayoutConfig { grow_elements_unevenly: true, ..base }
    );
    let mut limited = base;
    limited.size_constraints.width = SizeLimit { min: 3, max: 80 };
    assert_eq!(UiElement::new().limit_width(3, 80).layout, limited);
    let mut limited = base;
    limited.size_constraints.height = SizeLimit { min: 4, max: 90 };
    assert_eq!(UiElement::new().limit_height(4, 90).layout, limited);
    assert_eq!(
        UiElement::new().layout_direction(ChildLayoutDirection::TopToBottom).layout,
        LayoutConfig { layout_direction: ChildLayoutDirection::TopToBottom, ..base }
    );
    assert_eq!(
        UiElement::new().alignment(ChildXAlignment::Right, ChildYAlignment::Bottom).layout,
        LayoutConfig {
            child_alignment: ChildAlignment::new(ChildXAlignment::Right, ChildYAlignment::Bottom),
            ..base
        }
    );
}

#[test]
fn setters_commute() {
    let one = UiElement::new().child_gap(3).padding(Padding::all(2)).limit_width(1, 9);
    let other = UiElement::new().limit_width(1, 9).padding(Padding::all(2)).child_gap(3);
    assert_eq!(one.layout, other.layout);
}

#[test]
fn image_sizes_follow_the_aspect_policy() {
    let e = UiElement::new();
    assert_eq!(image_of(&e.image(texture(), None, None, false)), (200, 100));
    let e = UiElement::new();
    assert_eq!(image_of(&e.image(texture(), Some(50), None, false)), (50, 100));
    let e = UiElement::new();
    assert_eq!(image_of(&e.image(texture(), Some(50), Some(7), false)), (50, 100));
    let e = UiElement::new();
    assert_eq!(image_of(&e.image(texture(), None, Some(50), false)), (25, 50));
    let e = UiElement::new();
    assert_eq!(image_of(&e.image(texture(), None, Some(51), false)), (25, 51));
}

#[test]
fn image_sizes_pass_through_without_the_aspect() {
    let e = UiElement::new();
    assert_eq!(image_of(&e.image(texture(), None, None, true)), (200, 100));
    let e = UiElement::new();
    assert_eq!(image_of(&e.image(texture(), Some(50), None, true)), (50, 100));
    let e = UiElement::new();
    assert_eq!(image_of(&e.image(texture(), None, Some(70), true)), (200, 70));
    let e = UiElement::new();
    assert_eq!(image_of(&e.image(texture(), Some(50), Some(70), true)), (50, 70));
}

#[test]
fn scaling_truncates_and_saturates() {
    assert_eq!(scale(100, 1, 3), 33);
    assert_eq!(scale(3, 1, 3), 1);
    assert_eq!(scale(0, 5, 3), 0);
    assert_eq!(scale(i32::MAX, 2, 1), i32::MAX);
    assert_eq!(scale(i32::MAX, i32::MAX, i32::MAX), i32::MAX);
    assert_eq!(scale(7, i32::MAX, 1), i32::MAX);
}

#[test]
fn text_gets_its_size_from_the_font() {
    let element = UiElement::new().limit_width(2, 500).text(&font(), "File", 16);
    assert_eq!(
        element.layout.sizing,
        Sizing { width: SizingMode::Fixed(40), height: SizingMode::Fixed(16) }
    );
    assert_eq!(element.layout.size_constraints.width, SizeLimit { min: 2, max: 40 });
    assert_eq!(element.layout.size_constraints.height, SizeLimit::default());
    match &element.object_type {
        ObjectType::Text(data) => {
            assert_eq!(data.text, "File");
            assert_eq!(data.font_size, 16);
            assert!(data.split_indices.is_empty());
            assert!(!data.break_on_overflow);
            assert_eq!(data.bitmap.character_list, font().character_list);
            assert_eq!(data.bitmap.texture, 7);
        }
        _ => panic!("the element is a text"),
    }
}

#[test]
fn text_remembers_its_line_feeds() {
    let element = UiElement::new().text(&font(), "ab\ncd\n", 24);
    match &element.object_type {
        ObjectType::Text(data) => assert_eq!(data.split_indices, vec![2, 5]),
        _ => panic!("the element is a text"),
    }
    assert_eq!(find_line_feeds(&"\n\na\n".chars().collect()), vec![0, 1, 3]);
    assert!(find_line_feeds(&vec![]).is_empty());
}

#[test]
fn cutting_is_switched_on_for_text_only() {
    let text = UiElement::new().text(&font(), "abc", 24).break_on_overflow();
    match &text.object_type {
        ObjectType::Text(data) => {
            assert!(data.break_on_overflow);
            assert_eq!(data.text, "abc");
            assert_eq!(data.font_size, 24);
        }
        _ => panic!("the element is a text"),
    }
    let rectangle =
        UiElement::new().rectangle(ObjectColor::red(), CornerRadius::all(1)).break_on_overflow();
    assert!(matches!(rectangle.object_type, ObjectType::Rectangle));
    assert_eq!(rectangle.color, ObjectColor::red());
    assert!(matches!(UiElement::new().break_on_overflow().object_type, ObjectType::Unset));
}

#[test]
fn the_tree_keeps_the_elements_in_the_order_of_opening() {
    let mut ui = CatplushContext::begin_layout((640, 480), ChildLayoutDirection::TopToBottom);
    assert_eq!(ui.len(), 1);
    ui.open_element(UiElement::new().child_gap(1));
    ui.open_element(UiElement::new().child_gap(2));
    ui.close_element();
    ui.close_element();
    ui.open_element(UiElement::new().child_gap(3));
    assert_eq!(ui.len(), 4);
    let gaps: Vec<i32> = ui.get_all_elements().iter().map(|e| e.layout.child_gap).collect();
    assert_eq!(gaps, vec![0, 1, 2, 3]);
    let root = ui.get_all_elements()[0];
    assert_eq!(
        root.layout.sizing,
        Sizing { width: SizingMode::Fixed(640), height: SizingMode::Fixed(480) }
    );
    assert_eq!(root.layout.layout_direction, ChildLayoutDirection::TopToBottom);
    assert_eq!(ui.layout_elements[0].parent, None);
    assert_eq!(ui.layout_elements[0].child_elements, vec![1, 3]);
    assert_eq!(ui.layout_elements[1].child_elements, vec![2]);
    assert_eq!(ui.layout_elements[2].parent, Some(1));
    assert_eq!(ui.layout_elements[3].parent, Some(0));
    assert_eq!(ui.open_layout_elements, vec![0, 3]);
}
