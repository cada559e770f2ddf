use catplush::bitmap::{BitmapConfiguration, PixelSize};
use catplush::color::ObjectColor;
use catplush::config::{
    ChildLayoutDirection, ChildXAlignment, ChildYAlignment, CornerRadius, Padding, SizingMode,
    SUBPIXELS,
};
use catplush::element::UiElement;
use catplush::render::{RenderCommand, RenderData};
use catplush::tree::CatplushContext;

fn px(pixels: i128) -> i128 {
    pixels * SUBPIXELS
}

fn fixed(width: i32, height: i32) -> UiElement {
    UiElement::new().sizing(SizingMode::Fixed(width), SizingMode::Fixed(height))
}

fn leaf(ui: &mut CatplushContext, element: UiElement) {
    ui.open_element(element);
    ui.close_element();
}

fn boxes(commands: &[RenderCommand]) -> Vec<(i128, i128, i128, i128)> {
    commands
        .iter()
        .map(|c| (c.bounding_box.x, c.bounding_box.y, c.bounding_box.width, c.bounding_box.height))
        .collect()
}

fn font() -> BitmapConfiguration {
    BitmapConfiguration {
        texture: 7,
        texture_size: PixelSize { x: 190, y: 100 },
        cell_size: PixelSize { x: 10, y: 20 },
        character_list: " abcdefghijklmnopqrstuvwxyz".to_string(),
        characters_per_row: 19,
    }
}

#[test]
fn fixed_row_of_three_children() {
    let mut ui = CatplushContext::begin_layout((300, 100), ChildLayoutDirection::LeftToRight);
    for _ in 0..3 {
        leaf(&mut ui, fixed(100, 100));
    }
    let commands = ui.end_layout();
    assert_eq!(
        boxes(&commands),
        vec![
            (px(0), px(0), px(100), px(100)),
            (px(100), px(0), px(100), px(100)),
            (px(200), px(0), px(100), px(100)),
        ]
    );
}

#[test]
fn grow_shares_the_free_width_evenly() {
    let mut ui = CatplushContext::begin_layout((300, 100), ChildLayoutDirection::LeftToRight);
    leaf(&mut ui, fixed(50, 10));
    leaf(&mut ui, UiElement::new().sizing(SizingMode::Grow, SizingMode::Fixed(10)));
    leaf(&mut ui, UiElement::new().sizing(SizingMode::Grow, SizingMode::Fixed(10)));
    let commands = ui.end_layout();
    let b = boxes(&commands);
    assert_eq!(b[0].2, px(50));
    assert_eq!(b[1].2, px(125));
    assert_eq!(b[2].2, px(125));
    assert_eq!(b[0].0, px(0));
    assert_eq!(b[1].0, px(50));
    assert_eq!(b[2].0, px(175));
}

#[test]
fn grow_stops_at_the_width_limit() {
    let mut ui = CatplushContext::begin_layout((300, 100), ChildLayoutDirection::LeftToRight);
    leaf(&mut ui, fixed(50, 10));
    leaf(
        &mut ui,
        UiElement::new().sizing(SizingMode::Grow, SizingMode::Fixed(10)).limit_width(0, 80),
    );
    leaf(&mut ui, UiElement::new().sizing(SizingMode::Grow, SizingMode::Fixed(10)));
    let commands = ui.end_layout();
    let b = boxes(&commands);
    assert_eq!(b[1].2, px(80));
    assert_eq!(b[2].2, px(170));
    assert_eq!(b[2].0, px(130));
}

#[test]
fn fit_column_hugs_its_children() {
    let mut ui = CatplushContext::begin_layout((300, 300), ChildLayoutDirection::LeftToRight);
    ui.open_element(
        UiElement::new()
            .sizing(SizingMode::Fit, SizingMode::Fit)
            .layout_direction(ChildLayoutDirection::TopToBottom)
            .padding(Padding::all(10))
            .child_gap(5),
    );
    leaf(&mut ui, fixed(40, 20));
    leaf(&mut ui, fixed(40, 20));
    ui.close_element();
    let commands = ui.end_layout();
    let b = boxes(&commands);
    assert_eq!((b[0].2, b[0].3), (px(60), px(65)));
    assert_eq!((b[1].0, b[1].1), (px(10), px(10)));
    assert_eq!((b[2].0, b[2].1), (px(10), px(35)));
}

#[test]
fn center_alignment_moves_the_row() {
    let mut ui = CatplushContext::begin_layout((400, 400), ChildLayoutDirection::LeftToRight);
    ui.open_element(
        fixed(200, 100)
            .layout_direction(ChildLayoutDirection::LeftToRight)
            .alignment(ChildXAlignment::Center, ChildYAlignment::Top),
    );
    leaf(&mut ui, fixed(60, 40));
    ui.close_element();
    let commands = ui.end_layout();
    let b = boxes(&commands);
    assert_eq!((b[1].0, b[1].1), (px(70), px(0)));
    assert_eq!((b[1].2, b[1].3), (px(60), px(40)));
}

#[test]
fn text_wraps_at_the_last_space_that_fits() {
    let mut ui = CatplushContext::begin_layout((100, 200), ChildLayoutDirection::TopToBottom);
    leaf(&mut ui, UiElement::new().text(&font(), "aa aa aa aa", 20));
    let commands = ui.end_layout();
    assert_eq!(commands.len(), 1);
    assert_eq!(commands[0].bounding_box.width, px(110));
    assert_eq!(commands[0].bounding_box.height, px(40));
    match &commands[0].render_data {
        RenderData::TextData(text) => {
            assert_eq!(text.split_indices, vec![8]);
            assert_eq!(text.text, "aa aa aa aa");
            assert_eq!(text.font_size, 20);
        }
        _ => panic!("the command of a text element draws text"),
    }
}

#[test]
fn layout_without_elements_draws_nothing() {
    let ui = CatplushContext::begin_layout((800, 380), ChildLayoutDirection::TopToBottom);
    assert!(ui.end_layout().is_empty());
}

#[test]
fn window_without_area_draws_nothing() {
    let ui = CatplushContext::begin_layout((0, 0), ChildLayoutDirection::LeftToRight);
    assert!(ui.end_layout().is_empty());
}

#[test]
fn commands_come_in_the_order_of_opening() {
    let mut ui = CatplushContext::begin_layout((300, 100), ChildLayoutDirection::LeftToRight);
    ui.open_element(fixed(10, 10).rectangle(ObjectColor::red(), CornerRadius::all(1)));
    leaf(&mut ui, fixed(1, 1).rectangle(ObjectColor::green(), CornerRadius::all(2)));
    ui.close_element();
    leaf(&mut ui, fixed(10, 10).rectangle(ObjectColor::blue(), CornerRadius::all(3)));
    let commands = ui.end_layout();
    let colors: Vec<ObjectColor> = commands
        .iter()
        .map(|c| match &c.render_data {
            RenderData::RectangleData(r) => r.color,
            _ => panic!("every element here is a rectangle"),
        })
        .collect();
    assert_eq!(colors, vec![ObjectColor::red(), ObjectColor::green(), ObjectColor::blue()]);
    assert!(commands.iter().all(|c| c.id.is_empty()));
}

#[test]
fn closing_too_often_does_nothing() {
    let mut ui = CatplushContext::begin_layout((300, 100), ChildLayoutDirection::LeftToRight);
    ui.close_element();
    ui.close_element();
    leaf(&mut ui, fixed(100, 100));
    ui.close_element();
    leaf(&mut ui, fixed(100, 100));
    let commands = ui.end_layout();
    assert_eq!(
        boxes(&commands),
        vec![(px(0), px(0), px(100), px(100)), (px(100), px(0), px(100), px(100))]
    );
}

#[test]
fn elements_left_open_are_still_laid_out() {
    let mut ui = CatplushContext::begin_layout((300, 100), ChildLayoutDirection::LeftToRight);
    ui.open_element(UiElement::new().padding(Padding::all(5)));
    ui.open_element(fixed(20, 30));
    let commands = ui.end_layout();
    assert_eq!(
        boxes(&commands),
        vec![(px(0), px(0), px(30), px(40)), (px(5), px(5), px(20), px(30))]
    );
}
