use catplush::bitmap::{chars_of, find_glyph, BitmapConfiguration, GlyphCell, PixelSize};
use catplush::color::ObjectColor;
use catplush::config::{
    Anchor, Axis, BorderWidth, ChildAlignment, ChildLayoutDirection, ChildXAlignment,
    ChildYAlignment, CornerRadius, LayoutConfig, Padding, SizeLimit, Sizing, SizingLimits,
    SizingMode, SUBPIXELS, UNLIMITED,
};
use catplush::distribute::{distribute_slack, Span};
use catplush::place::{halve, place_children, Frame};
use catplush::wrap::{find_last_space, glyph_spots, merge_breaks, wrap_text, GlyphSpot};

fn span(size: i128, cap: i128, grows: bool) -> Span {
    Span { size, cap, grows }
}

fn sizes(spans: &[Span]) -> Vec<i128> {
    spans.iter().map(|s| s.size).collect()
}

fn px(pixels: i128) -> i128 {
    pixels * SUBPIXELS
}

fn chars(text: &str) -> Vec<char> {
    text.chars().collect()
}

#[test]
fn colors_pack_red_first() {
    assert_eq!(ObjectColor(0x12, 0x34, 0x56, 0x78).as_u32(), 0x12345678);
    assert_eq!(ObjectColor::from_u32_hex(0xeebe2bff), ObjectColor(0xee, 0xbe, 0x2b, 0xff));
    assert_eq!(ObjectColor::from_u32_hex(0), ObjectColor(0, 0, 0, 0));
    assert_eq!(ObjectColor(255, 255, 255, 255).as_u32(), u32::MAX);
}

#[test]
fn colors_survive_the_round_trip() {
    for hex in [0u32, 1, 0xff, 0x100, 0x00ff00ff, 0x7dd1eeff, u32::MAX] {
        assert_eq!(ObjectColor::from_u32_hex(hex).as_u32(), hex);
    }
    let color = ObjectColor(1, 2, 3, 4);
    assert_eq!(ObjectColor::from_u32_hex(color.as_u32()), color);
}

#[test]
fn named_colors() {
    assert_eq!(ObjectColor::transparent(), ObjectColor(0, 0, 0, 0));
    assert_eq!(ObjectColor::black(), ObjectColor(0, 0, 0, 255));
    assert_eq!(ObjectColor::white(), ObjectColor(255, 255, 255, 255));
    assert_eq!(ObjectColor::red(), ObjectColor(255, 0, 0, 255));
    assert_eq!(ObjectColor::green(), ObjectColor(0, 255, 0, 255));
    assert_eq!(ObjectColor::blue(), ObjectColor(0, 0, 255, 255));
    assert_eq!(ObjectColor::default(), ObjectColor::transparent());
}

#[test]
fn value_constructors_fill_the_right_fields() {
    assert_eq!(
        Sizing::new(SizingMode::Fixed(3), SizingMode::Grow),
        Sizing { width: SizingMode::Fixed(3), height: SizingMode::Grow }
    );
    assert_eq!(
        Sizing::both(SizingMode::Fit),
        Sizing { width: SizingMode::Fit, height: SizingMode::Fit }
    );
    assert_eq!(
        CornerRadius::new(1, 2, 3, 4),
        CornerRadius { top_right: 1, bottom_right: 2, bottom_left: 3, top_left: 4 }
    );
    assert_eq!(
        CornerRadius::all(7),
        CornerRadius { top_right: 7, bottom_right: 7, bottom_left: 7, top_left: 7 }
    );
    assert_eq!(BorderWidth::new(1, 2, 3, 4), BorderWidth { top: 1, right: 2, bottom: 3, left: 4 });
    assert_eq!(BorderWidth::all(5), BorderWidth { top: 5, right: 5, bottom: 5, left: 5 });
    assert_eq!(Padding::new(1, 2, 3, 4), Padding { left: 1, right: 2, top: 3, bottom: 4 });
    assert_eq!(Padding::hv(6, 9), Padding { left: 6, right: 6, top: 9, bottom: 9 });
    assert_eq!(Padding::all(8), Padding { left: 8, right: 8, top: 8, bottom: 8 });
    assert_eq!(
        ChildAlignment::new(ChildXAlignment::Right, ChildYAlignment::Center),
        ChildAlignment { x: ChildXAlignment::Right, y: ChildYAlignment::Center }
    );
}

#[test]
fn defaults_of_the_configuration() {
    let config = LayoutConfig::default();
    assert_eq!(config.sizing, Sizing::both(SizingMode::Fit));
    assert_eq!(config.size_constraints, SizingLimits::default());
    assert_eq!(SizeLimit::default(), SizeLimit { min: 0, max: 999_999_999 });
    assert_eq!(UNLIMITED, 999_999_999);
    assert!(config.keep_aspect_ratio);
    assert!(!config.grow_elements_unevenly);
    assert_eq!(config.padding, Padding::all(0));
    assert_eq!(config.child_gap, 0);
    assert_eq!(config.layout_direction, ChildLayoutDirection::LeftToRight);
    assert_eq!(
        config.child_alignment,
        ChildAlignment { x: ChildXAlignment::Left, y: ChildYAlignment::Top }
    );
    assert_eq!(ChildXAlignment::default(), ChildXAlignment::Left);
    assert_eq!(ChildYAlignment::default(), ChildYAlignment::Top);
}

#[test]
fn values_by_axis() {
    let padding = Padding::new(1, 2, 3, 4);
    assert_eq!((padding.before(Axis::X), padding.after(Axis::X)), (1, 2));
    assert_eq!((padding.before(Axis::Y), padding.after(Axis::Y)), (3, 4));
    let sizing = Sizing::new(SizingMode::Fixed(3), SizingMode::Grow);
    assert_eq!(sizing.mode(Axis::X), SizingMode::Fixed(3));
    assert_eq!(sizing.mode(Axis::Y), SizingMode::Grow);
    let limits = SizingLimits {
        width: SizeLimit { min: 1, max: 2 },
        height: SizeLimit { min: 3, max: 4 },
    };
    assert_eq!(limits.limit(Axis::X), SizeLimit { min: 1, max: 2 });
    assert_eq!(limits.limit(Axis::Y), SizeLimit { min: 3, max: 4 });
    let alignment = ChildAlignment::new(ChildXAlignment::Center, ChildYAlignment::Bottom);
    assert_eq!(alignment.anchor(Axis::X), Anchor::Middle);
    assert_eq!(alignment.anchor(Axis::Y), Anchor::End);
    assert_eq!(ChildAlignment::default().anchor(Axis::X), Anchor::Start);
    assert!(ChildLayoutDirection::LeftToRight.is_along(Axis::X));
    assert!(!ChildLayoutDirection::LeftToRight.is_along(Axis::Y));
    assert!(ChildLayoutDirection::TopToBottom.is_along(Axis::Y));
    assert!(!ChildLayoutDirection::TopToBottom.is_along(Axis::X));
}

#[test]
fn slack_goes_to_the_children_that_grow() {
    let mut spans = vec![span(5000, 0, false), span(0, 1 << 40, true), span(0, 1 << 40, true)];
    distribute_slack(&mut spans, 25000, false);
    assert_eq!(sizes(&spans), vec![5000, 12500, 12500]);
}

#[test]
fn smallest_children_are_raised_first() {
    let mut spans = vec![span(100, 1 << 40, true), span(40, 1 << 40, true), span(10, 1 << 40, true)];
    // 30 lift the smallest to 40, 120 lift those two to 100, 60 are shared by all.
    distribute_slack(&mut spans, 30 + 120 + 60, false);
    assert_eq!(sizes(&spans), vec![120, 120, 120]);
}

#[test]
fn a_round_shares_its_step_among_all_that_are_eligible() {
    let mut spans = vec![span(0, 1 << 40, true), span(0, 1 << 40, true), span(1000, 1 << 40, true)];
    // Each round gives the two small children a third of what is left:
    // 10, 3 and 1, and then 2 are left for three children.
    distribute_slack(&mut spans, 30, false);
    assert_eq!(sizes(&spans), vec![14, 14, 1000]);
}

#[test]
fn uneven_growth_keeps_the_differences() {
    let mut spans = vec![span(0, 1 << 40, true), span(10, 1 << 40, true)];
    distribute_slack(&mut spans, 100, true);
    assert_eq!(sizes(&spans), vec![50, 60]);
}

#[test]
fn growth_stops_at_the_cap() {
    let mut spans = vec![span(0, 8000, true), span(0, 1 << 40, true)];
    distribute_slack(&mut spans, 25000, false);
    assert_eq!(sizes(&spans), vec![8000, 17000]);
    let mut capped = vec![span(0, 10, true), span(0, 20, true)];
    distribute_slack(&mut capped, 1000, true);
    assert_eq!(sizes(&capped), vec![10, 20]);
}

#[test]
fn less_than_one_part_each_stays_free() {
    let mut spans = vec![span(0, 1 << 40, true); 3];
    distribute_slack(&mut spans, 10000, false);
    assert_eq!(sizes(&spans), vec![3333, 3333, 3333]);
    let mut two = vec![span(7, 1 << 40, true); 3];
    distribute_slack(&mut two, 2, false);
    assert_eq!(sizes(&two), vec![7, 7, 7]);
}

#[test]
fn nothing_grows_without_slack_or_without_growers() {
    let mut spans = vec![span(10, 100, true), span(20, 100, false)];
    distribute_slack(&mut spans, 0, false);
    assert_eq!(sizes(&spans), vec![10, 20]);
    distribute_slack(&mut spans, -50, false);
    assert_eq!(sizes(&spans), vec![10, 20]);
    let mut fixed = vec![span(10, 100, false), span(20, 100, false)];
    distribute_slack(&mut fixed, 500, false);
    assert_eq!(sizes(&fixed), vec![10, 20]);
    let mut full = vec![span(100, 100, true), span(150, 100, true)];
    distribute_slack(&mut full, 500, true);
    assert_eq!(sizes(&full), vec![100, 150]);
    let mut none: Vec<Span> = vec![];
    distribute_slack(&mut none, 500, false);
    assert!(none.is_empty());
}

fn frame(along: bool, anchor: Anchor) -> Frame {
    Frame { origin: 1000, extent: 500, near: 10, far: 20, gap: 5, along, anchor }
}

#[test]
fn children_in_a_row_follow_each_other() {
    let row = vec![100, 50, 30];
    assert_eq!(place_children(&frame(true, Anchor::Start), &row), vec![1010, 1115, 1170]);
    // 500 - 30 - 10 - 180 = 280 are free.
    assert_eq!(place_children(&frame(true, Anchor::Middle), &row), vec![1150, 1255, 1310]);
    assert_eq!(place_children(&frame(true, Anchor::End), &row), vec![1290, 1395, 1450]);
}

#[test]
fn children_across_a_row_are_moved_one_by_one() {
    let row = vec![100, 50, 470, 600];
    assert_eq!(
        place_children(&frame(false, Anchor::Start), &row),
        vec![1010, 1010, 1010, 1010]
    );
    assert_eq!(
        place_children(&frame(false, Anchor::Middle), &row),
        vec![1010 + 185, 1010 + 210, 1010, 1010 - 65]
    );
    assert_eq!(
        place_children(&frame(false, Anchor::End), &row),
        vec![1010 + 370, 1010 + 420, 1010, 1010 - 130]
    );
}

#[test]
fn a_row_that_overflows_is_still_placed() {
    let row = vec![400, 400];
    // 470 - 5 - 800 = -335 are free.
    assert_eq!(place_children(&frame(true, Anchor::Start), &row), vec![1010, 1415]);
    assert_eq!(place_children(&frame(true, Anchor::Middle), &row), vec![1010 - 167, 1415 - 167]);
    assert_eq!(place_children(&frame(true, Anchor::End), &row), vec![1010 - 335, 1415 - 335]);
    assert!(place_children(&frame(true, Anchor::End), &vec![]).is_empty());
}

#[test]
fn halves_round_towards_zero() {
    assert_eq!(halve(7), 3);
    assert_eq!(halve(-7), -3);
    assert_eq!(halve(0), 0);
    assert_eq!(halve(-1), 0);
    assert_eq!(halve(8), 4);
}

#[test]
fn last_space_of_a_range() {
    let text = chars("ab cd ef");
    assert_eq!(find_last_space(&text, 0, 8), Some(5));
    assert_eq!(find_last_space(&text, 0, 5), Some(2));
    assert_eq!(find_last_space(&text, 3, 5), None);
    assert_eq!(find_last_space(&text, 6, 8), None);
    assert_eq!(find_last_space(&text, 5, 5), None);
    assert_eq!(find_last_space(&text, 7, 3), None);
}

#[test]
fn text_is_wrapped_at_spaces() {
    // 11 characters of 10 pixels in 100 pixels: one wrap, ten characters a line.
    assert_eq!(wrap_text(&chars("aa aa aa aa"), 10, px(100), false), vec![8]);
    // In 50 pixels: two wraps of five characters a line.
    assert_eq!(wrap_text(&chars("aa aa aa aa"), 10, px(50), false), vec![2, 8]);
    // In 30 pixels: three wraps of three characters a line.
    assert_eq!(wrap_text(&chars("aa aa aa aa"), 10, px(30), false), vec![2, 5, 8]);
}

#[test]
fn text_without_spaces_is_cut_only_on_request() {
    let text = chars("aaaaaaaaaaaa");
    assert!(wrap_text(&text, 10, px(50), false).is_empty());
    // 12 characters in 50 pixels: two wraps, five characters a line.
    assert_eq!(wrap_text(&text, 10, px(50), true), vec![4, 9]);
    // A space is preferred to a cut.
    assert_eq!(wrap_text(&chars("aaa aaaaaaaa"), 10, px(50), true), vec![3, 9]);
}

#[test]
fn text_that_fits_or_cannot_be_measured_is_not_wrapped() {
    assert!(wrap_text(&chars("aa aa"), 10, px(100), true).is_empty());
    assert!(wrap_text(&chars("aa aa aa aa"), 10, 0, true).is_empty());
    assert!(wrap_text(&chars("aa aa aa aa"), 10, px(-7), true).is_empty());
    assert!(wrap_text(&chars("aa aa aa aa"), 0, px(100), true).is_empty());
    assert!(wrap_text(&chars(""), 10, px(100), true).is_empty());
    // Less room than one cell: no line can hold a character.
    assert!(wrap_text(&chars("aa aa"), 10, px(10) - 1, true).is_empty());
}

#[test]
fn breaks_are_merged_in_rising_order() {
    assert_eq!(merge_breaks(&vec![1, 5, 9], &vec![2, 5, 7, 20]), vec![1, 2, 5, 7, 9, 20]);
    assert_eq!(merge_breaks(&vec![], &vec![3, 4]), vec![3, 4]);
    assert_eq!(merge_breaks(&vec![3, 4], &vec![]), vec![3, 4]);
    assert!(merge_breaks(&vec![], &vec![]).is_empty());
}

fn font(list: &str) -> BitmapConfiguration {
    BitmapConfiguration {
        texture: 7,
        texture_size: PixelSize { x: 285, y: 120 },
        cell_size: PixelSize { x: 15, y: 24 },
        character_list: list.to_string(),
        characters_per_row: 19,
    }
}

#[test]
fn characters_of_a_string() {
    assert_eq!(chars_of("a\u{e9}\u{20ac}z"), vec!['a', '\u{e9}', '\u{20ac}', 'z']);
    assert!(chars_of("").is_empty());
}

#[test]
fn glyphs_are_numbered_by_byte() {
    let list = "a\u{e9}\u{20ac}\u{1f600}z\u{e9}";
    let characters: Vec<char> = list.chars().collect();
    for c in ['a', '\u{e9}', '\u{20ac}', '\u{1f600}', 'z'] {
        assert_eq!(find_glyph(&characters, c), list.find(c).map(|at| at as u64));
    }
    assert_eq!(find_glyph(&characters, 'z'), Some(10));
    assert_eq!(find_glyph(&characters, 'q'), None);
    assert_eq!(find_glyph(&vec![], 'q'), None);
}

#[test]
fn glyph_cells_run_row_by_row() {
    let list: String = (' '..='~').collect();
    let bitmap = font(&list);
    assert_eq!(bitmap.glyph_cell(' '), Some(GlyphCell { column: 0, row: 0 }));
    assert_eq!(bitmap.glyph_cell('2'), Some(GlyphCell { column: 18, row: 0 }));
    assert_eq!(bitmap.glyph_cell('3'), Some(GlyphCell { column: 0, row: 1 }));
    assert_eq!(bitmap.glyph_cell('~'), Some(GlyphCell { column: 18, row: 4 }));
    assert_eq!(bitmap.glyph_cell('\u{e9}'), None);
}

#[test]
fn fonts_know_what_they_can_show() {
    let bitmap = font("abc ");
    assert!(bitmap.can_render("a cab"));
    assert!(bitmap.can_render(""));
    assert!(!bitmap.can_render("abd"));
    assert!(!bitmap.can_render("a\nb"));
    let copy = bitmap.clone();
    assert_eq!(copy.character_list, "abc ");
    assert_eq!(copy.texture, 7);
    assert_eq!(copy.cell_size, PixelSize { x: 15, y: 24 });
    assert_eq!(copy.texture_size, PixelSize { x: 285, y: 120 });
    assert_eq!(copy.characters_per_row, 19);
    assert_eq!(bitmap.duplicate().character_list, "abc ");
}

#[test]
fn text_is_measured_in_whole_pixels() {
    let bitmap = font("abc ");
    assert_eq!(bitmap.measure(4, 16), 40);
    assert_eq!(bitmap.measure(10, 22), 137);
    assert_eq!(bitmap.measure(1, 22), 13);
    assert_eq!(bitmap.measure(0, 22), 0);
    assert_eq!(bitmap.measure(3, 0), 0);
    assert_eq!(bitmap.measure(11, 24), 165);
}

#[test]
fn characters_get_their_line_and_column() {
    let spots = glyph_spots(7, &vec![2, 5]);
    let expected = [(0, 0), (0, 1), (0, 2), (1, 0), (1, 1), (1, 2), (2, 0)];
    assert_eq!(
        spots,
        expected.iter().map(|&(line, column)| GlyphSpot { line, column }).collect::<Vec<_>>()
    );
    assert_eq!(glyph_spots(2, &vec![]), vec![GlyphSpot { line: 0, column: 0 }, GlyphSpot {
        line: 0,
        column: 1
    }]);
    assert!(glyph_spots(0, &vec![1]).is_empty());
    // A break at or behind the last character starts no line within the text.
    assert_eq!(glyph_spots(2, &vec![1, 9])[1], GlyphSpot { line: 0, column: 1 });
}
