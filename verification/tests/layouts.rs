use catplush::bitmap::{BitmapConfiguration, PixelSize};
use catplush::color::ObjectColor;
use catplush::config::{
    BorderWidth, ChildLayoutDirection, ChildXAlignment, ChildYAlignment, CornerRadius, Padding,
    SizingMode, SUBPIXELS,
};
use catplush::element::{CatplushTextureData, UiElement};
use catplush::render::{
    BoundingBox, RectangleRenderData, RenderCommand, RenderData, TextureRenderData,
};
use catplush::tree::CatplushContext;

fn px(pixels: i128) -> i128 {
    pixels * SUBPIXELS
}

fn fixed(width: i32, height: i32) -> UiElement {
    UiElement::new().sizing(SizingMode::Fixed(width), SizingMode::Fixed(height))
}

fn grow() -> UiElement {
    UiElement::new().sizing(SizingMode::Grow, SizingMode::Grow)
}

fn leaf(ui: &mut CatplushContext, element: UiElement) {
    ui.open_element(element);
    ui.close_element();
}

fn area(x: i128, y: i128, width: i128, height: i128) -> BoundingBox {
    BoundingBox { x: px(x), y: px(y), width: px(width), height: px(height) }
}

fn areas(commands: &[RenderCommand]) -> Vec<BoundingBox> {
    commands.iter().map(|c| c.bounding_box).collect()
}

fn font() -> BitmapConfiguration {
    BitmapConfiguration {
        texture: 7,
        texture_size: PixelSize { x: 190, y: 100 },
        cell_size: PixelSize { x: 10, y: 20 },
        character_list: " \nabcdefghijklmnopqrstuvwxyz".to_string(),
        characters_per_row: 19,
    }
}

fn window_with_sidebar() -> Vec<RenderCommand> {
    let mut ui = CatplushContext::begin_layout((800, 380), ChildLayoutDirection::TopToBottom);
    ui.open_element(
        grow()
            .layout_direction(ChildLayoutDirection::TopToBottom)
            .padding(Padding::all(10))
            .child_gap(10),
    );
    ui.open_element(
        UiElement::new()
            .rectangle(ObjectColor(0, 105, 143, 255), CornerRadius::all(17))
            .border(ObjectColor::black(), BorderWidth::all(3))
            .sizing(SizingMode::Grow, SizingMode::Fixed(50))
            .padding(Padding::all(10))
            .child_gap(10),
    );
    leaf(&mut ui, UiElement::new().sizing(SizingMode::Fixed(100), SizingMode::Grow));
    leaf(&mut ui, grow());
    leaf(&mut ui, UiElement::new().sizing(SizingMode::Fixed(75), SizingMode::Grow));
    ui.close_element();
    ui.open_element(grow().padding(Padding::all(10)).child_gap(10));
    leaf(
        &mut ui,
        UiElement::new()
            .sizing(SizingMode::Fixed(200), SizingMode::Grow)
            .layout_direction(ChildLayoutDirection::TopToBottom),
    );
    leaf(&mut ui, grow());
    ui.close_element();
    ui.close_element();
    ui.end_layout()
}

#[test]
fn nested_rows_and_columns_fill_the_window() {
    assert_eq!(
        areas(&window_with_sidebar()),
        vec![
            area(0, 0, 800, 380),
            area(10, 10, 780, 50),
            area(20, 20, 100, 30),
            area(130, 20, 565, 30),
            area(705, 20, 75, 30),
            area(10, 70, 780, 300),
            area(20, 80, 200, 280),
            area(230, 80, 550, 280),
        ]
    );
}

#[test]
fn the_same_tree_gives_the_same_commands() {
    let one = window_with_sidebar();
    let other = window_with_sidebar();
    assert_eq!(areas(&one), areas(&other));
    for (a, b) in one.iter().zip(other.iter()) {
        assert_eq!(a.id, b.id);
        match (&a.render_data, &b.render_data) {
            (RenderData::NoType, RenderData::NoType) => {}
            (RenderData::RectangleData(x), RenderData::RectangleData(y)) => assert_eq!(x, y),
            _ => panic!("the two commands draw the same kind of thing"),
        }
    }
}

#[test]
fn sizes_stay_within_their_limits() {
    let mut ui = CatplushContext::begin_layout((1000, 100), ChildLayoutDirection::LeftToRight);
    leaf(&mut ui, grow().limit_width(50, 120));
    leaf(&mut ui, grow().limit_width(300, 350));
    leaf(&mut ui, UiElement::new().limit_width(40, 60).padding(Padding::hv(5, 0)));
    let commands = ui.end_layout();
    let widths: Vec<i128> = commands.iter().map(|c| c.bounding_box.width).collect();
    assert_eq!(widths, vec![px(120), px(350), px(50)]);
    for (width, (min, max)) in widths.iter().zip([(50, 120), (300, 350), (40, 60)]) {
        assert!(px(min) <= *width && *width <= px(max));
    }
}

#[test]
fn children_of_a_row_stay_inside_their_parent() {
    for x_align in [ChildXAlignment::Left, ChildXAlignment::Center, ChildXAlignment::Right] {
        let mut ui = CatplushContext::begin_layout((500, 100), ChildLayoutDirection::LeftToRight);
        ui.open_element(fixed(301, 80).padding(Padding::new(7, 9, 3, 5)).child_gap(4).alignment(
            x_align,
            ChildYAlignment::Center,
        ));
        leaf(&mut ui, fixed(100, 20));
        leaf(&mut ui, fixed(50, 72));
        leaf(&mut ui, UiElement::new().sizing(SizingMode::Grow, SizingMode::Grow).limit_width(0, 30));
        ui.close_element();
        let commands = ui.end_layout();
        let parent = commands[0].bounding_box;
        let mut along = 0;
        for child in &commands[1..] {
            let b = child.bounding_box;
            assert!(b.x >= parent.x + px(7));
            assert!(b.x + b.width <= parent.x + parent.width - px(9));
            assert!(b.y >= parent.y + px(3));
            assert!(b.y + b.height <= parent.y + parent.height - px(5));
            along += b.width;
        }
        assert!(along + px(2 * 4) + px(7 + 9) <= parent.width);
        assert_eq!(commands[3].bounding_box.width, px(30));
        assert_eq!(commands[3].bounding_box.height, px(72));
    }
}

#[test]
fn free_space_is_shared_evenly_and_all_but_a_trace() {
    for (window, count) in [(100, 3), (2, 3), (200, 3), (1000, 7), (1, 1000)] {
        let mut ui =
            CatplushContext::begin_layout((window, 10), ChildLayoutDirection::LeftToRight);
        for _ in 0..count {
            leaf(&mut ui, grow());
        }
        let commands = ui.end_layout();
        let b = areas(&commands);
        let share = px(window as i128) / count;
        let mut at = 0;
        for child in &b {
            assert_eq!(child.width, share);
            assert_eq!(child.x, at);
            assert_eq!(child.height, px(10));
            at += share;
        }
        let free = px(window as i128) - at;
        assert!(0 <= free && free < count);
        // Less than a hundredth of a pixel stays free.
        assert!(free * 100 < SUBPIXELS);
    }
}

#[test]
fn a_third_of_a_hundred_pixels() {
    let mut ui = CatplushContext::begin_layout((100, 10), ChildLayoutDirection::LeftToRight);
    for _ in 0..3 {
        leaf(&mut ui, grow());
    }
    let commands = ui.end_layout();
    assert_eq!(SUBPIXELS, 26_214_400);
    assert_eq!(commands[0].bounding_box.width, 873_813_333);
    assert_eq!(commands[2].bounding_box.x, 1_747_626_666);
}

#[test]
fn half_pixels_are_kept_when_centering() {
    let mut ui = CatplushContext::begin_layout((101, 51), ChildLayoutDirection::LeftToRight);
    ui.open_element(
        fixed(101, 51).alignment(ChildXAlignment::Center, ChildYAlignment::Center),
    );
    leaf(&mut ui, fixed(50, 20));
    ui.close_element();
    let commands = ui.end_layout();
    assert_eq!(commands[1].bounding_box.x, px(51) / 2);
    assert_eq!(commands[1].bounding_box.y, px(31) / 2);
}

#[test]
fn alignment_to_the_far_side() {
    let mut ui = CatplushContext::begin_layout((200, 100), ChildLayoutDirection::TopToBottom);
    ui.open_element(
        fixed(200, 100)
            .layout_direction(ChildLayoutDirection::TopToBottom)
            .child_gap(10)
            .alignment(ChildXAlignment::Right, ChildYAlignment::Bottom),
    );
    leaf(&mut ui, fixed(60, 20));
    leaf(&mut ui, fixed(80, 30));
    ui.close_element();
    let commands = ui.end_layout();
    assert_eq!(areas(&commands)[1..].to_vec(), vec![area(140, 40, 60, 20), area(120, 70, 80, 30)]);
}

#[test]
fn growing_across_the_row_takes_all_the_room() {
    let mut ui = CatplushContext::begin_layout((300, 200), ChildLayoutDirection::TopToBottom);
    ui.open_element(
        fixed(300, 200).layout_direction(ChildLayoutDirection::TopToBottom).padding(Padding::hv(20, 0)),
    );
    leaf(&mut ui, UiElement::new().sizing(SizingMode::Grow, SizingMode::Fixed(10)).limit_width(0, 50));
    leaf(&mut ui, UiElement::new().sizing(SizingMode::Grow, SizingMode::Fixed(10)));
    ui.close_element();
    ui.open_element(fixed(10, 10).padding(Padding::hv(20, 20)));
    leaf(&mut ui, UiElement::new().sizing(SizingMode::Fixed(1), SizingMode::Grow));
    ui.close_element();
    let commands = ui.end_layout();
    let b = areas(&commands);
    assert_eq!(b[1], area(20, 0, 260, 10));
    assert_eq!(b[2], area(20, 10, 260, 10));
    // A parent smaller than its padding leaves nothing to take.
    assert_eq!(b[4].height, 0);
}

#[test]
fn children_that_overflow_do_not_grow() {
    let mut ui = CatplushContext::begin_layout((100, 50), ChildLayoutDirection::LeftToRight);
    leaf(&mut ui, fixed(80, 10));
    leaf(&mut ui, fixed(80, 10));
    leaf(&mut ui, UiElement::new().sizing(SizingMode::Grow, SizingMode::Fixed(10)).limit_width(5, 500));
    let commands = ui.end_layout();
    assert_eq!(
        areas(&commands),
        vec![area(0, 0, 80, 10), area(80, 0, 80, 10), area(160, 0, 5, 10)]
    );
}

#[test]
fn uneven_growth_in_a_layout() {
    let mut ui = CatplushContext::begin_layout((300, 50), ChildLayoutDirection::LeftToRight);
    ui.open_element(fixed(300, 50).grow_elements_unevenly());
    leaf(&mut ui, grow().limit_width(20, 1000));
    leaf(&mut ui, grow().limit_width(80, 1000));
    ui.close_element();
    let commands = ui.end_layout();
    assert_eq!(commands[1].bounding_box.width, px(120));
    assert_eq!(commands[2].bounding_box.width, px(180));
}

#[test]
fn fit_takes_the_largest_child_across_and_the_sum_along() {
    let mut ui = CatplushContext::begin_layout((900, 900), ChildLayoutDirection::LeftToRight);
    ui.open_element(UiElement::new().padding(Padding::new(1, 2, 3, 4)).child_gap(10).limit_width(5, 999));
    leaf(&mut ui, fixed(30, 70));
    leaf(&mut ui, fixed(40, 20));
    leaf(&mut ui, fixed(50, 60));
    ui.close_element();
    leaf(&mut ui, UiElement::new().child_gap(10).padding(Padding::all(2)));
    let commands = ui.end_layout();
    // Width: the least width 5, the padding 3, two gaps and the children.
    assert_eq!(commands[0].bounding_box.width, px(5 + 3 + 20 + 120));
    assert_eq!(commands[0].bounding_box.height, px(7 + 70));
    // An element without children has no gaps.
    assert_eq!(commands[4].bounding_box, area(148, 0, 4, 4));
}

#[test]
fn wrapped_text_pushes_what_follows_down() {
    let mut ui = CatplushContext::begin_layout((100, 200), ChildLayoutDirection::TopToBottom);
    ui.open_element(UiElement::new().layout_direction(ChildLayoutDirection::TopToBottom));
    leaf(&mut ui, UiElement::new().text(&font(), "aa aa\naa aa", 20));
    leaf(&mut ui, fixed(10, 10));
    ui.close_element();
    let commands = ui.end_layout();
    assert_eq!(commands[0].bounding_box, area(0, 0, 110, 50));
    assert_eq!(commands[1].bounding_box, area(0, 0, 110, 40));
    assert_eq!(commands[2].bounding_box, area(0, 40, 10, 10));
    match &commands[1].render_data {
        RenderData::TextData(text) => assert_eq!(text.split_indices, vec![5, 8]),
        _ => panic!("the command of a text element draws text"),
    }
}

#[test]
fn text_beside_a_sibling_has_less_room() {
    let mut ui = CatplushContext::begin_layout((200, 200), ChildLayoutDirection::LeftToRight);
    leaf(&mut ui, fixed(140, 10));
    leaf(&mut ui, UiElement::new().text(&font(), "abcdefghijkl", 20).break_on_overflow());
    let commands = ui.end_layout();
    // 60 pixels are left, which hold six characters a line.
    match &commands[1].render_data {
        RenderData::TextData(text) => {
            assert_eq!(text.split_indices, vec![5]);
            assert_eq!(text.bitmap.texture, 7);
        }
        _ => panic!("the command of a text element draws text"),
    }
    assert_eq!(commands[1].bounding_box, area(140, 0, 120, 40));
}

#[test]
fn each_kind_of_element_gets_its_command() {
    let mut ui = CatplushContext::begin_layout((300, 300), ChildLayoutDirection::TopToBottom);
    leaf(&mut ui, fixed(1, 1));
    leaf(
        &mut ui,
        fixed(2, 2)
            .rectangle(ObjectColor(1, 2, 3, 4), CornerRadius::new(1, 2, 3, 4))
            .border(ObjectColor(5, 6, 7, 8), BorderWidth::new(4, 3, 2, 1)),
    );
    leaf(
        &mut ui,
        UiElement::new().image(
            CatplushTextureData { texture_id: 9, width: 64, height: 32 },
            Some(32),
            None,
            true,
        ),
    );
    leaf(&mut ui, UiElement::new().text(&font(), "abc", 20));
    let commands = ui.end_layout();
    assert!(matches!(commands[0].render_data, RenderData::NoType));
    match &commands[1].render_data {
        RenderData::RectangleData(data) => assert_eq!(
            *data,
            RectangleRenderData {
                color: ObjectColor(1, 2, 3, 4),
                stroke_color: ObjectColor(5, 6, 7, 8),
                corner_radius: CornerRadius::new(1, 2, 3, 4),
                border_width: BorderWidth::new(4, 3, 2, 1),
            }
        ),
        _ => panic!("the command of a rectangle draws a rectangle"),
    }
    match &commands[2].render_data {
        RenderData::ImageData(data) => {
            assert_eq!(*data, TextureRenderData { texture_id: 9, width: 32, height: 32 })
        }
        _ => panic!("the command of an image draws an image"),
    }
    assert_eq!(commands[2].bounding_box, area(0, 3, 32, 32));
    match &commands[3].render_data {
        RenderData::TextData(data) => {
            assert_eq!(data.text, "abc");
            assert_eq!(data.font_size, 20);
            assert!(data.split_indices.is_empty());
            assert_eq!(data.bitmap.cell_size, PixelSize { x: 10, y: 20 });
        }
        _ => panic!("the command of a text draws text"),
    }
    assert_eq!(commands[3].bounding_box, area(0, 35, 30, 20));
}

#[test]
fn identifiers_are_handed_on() {
    let mut ui = CatplushContext::begin_layout((300, 300), ChildLayoutDirection::TopToBottom);
    let mut named = fixed(1, 1);
    named.id = Some("sidebar");
    leaf(&mut ui, named);
    leaf(&mut ui, fixed(1, 1));
    let commands = ui.end_layout();
    assert_eq!(commands[0].id, "sidebar");
    assert_eq!(commands[1].id, "");
}
