use catplush::bitmap::{BitmapConfiguration, PixelSize};
use catplush::config::{Axis, ChildLayoutDirection, Padding, SizingMode, SUBPIXELS};
use catplush::element::UiElement;
use catplush::solver::{
    fit_sizes, gather, position_along_axis, size_along_axis, solve, sum_row, wrap_all,
};
use catplush::tree::{CatplushContext, Node};

fn alphabet() -> BitmapConfiguration {
    BitmapConfiguration {
        texture: 1,
        texture_size: PixelSize { x: 190, y: 100 },
        cell_size: PixelSize { x: 10, y: 20 },
        character_list: " abcdefghijklmnopqrstuvwxyz".to_string(),
        characters_per_row: 19,
    }
}

/// Whole pixels as subpixels.
fn px(pixels: &[i128]) -> Vec<i128> {
    pixels.iter().map(|p| p * SUBPIXELS).collect()
}

fn node(parent: Option<usize>, element: UiElement, children: &[usize], end: usize) -> Node {
    Node { parent, element, child_elements: children.to_vec(), subtree_end: Some(end) }
}

/// A window of 150 by 100 pixels with a column and a box in a row; the
/// column holds a box and a text.
fn tree() -> Vec<Node> {
    let fixed = |w, h| UiElement::new().sizing(SizingMode::Fixed(w), SizingMode::Fixed(h));
    vec![
        node(None, fixed(150, 100), &[1, 4], 5),
        node(
            Some(0),
            UiElement::new()
                .sizing(SizingMode::Grow, SizingMode::Grow)
                .layout_direction(ChildLayoutDirection::TopToBottom)
                .padding(Padding::all(10))
                .child_gap(5),
            &[2, 3],
            4,
        ),
        node(Some(1), fixed(40, 20), &[], 3),
        node(Some(1), UiElement::new().text(&alphabet(), "aa aa aa aa", 20), &[], 4),
        node(Some(0), fixed(50, 50), &[], 5),
    ]
}

#[test]
fn the_phases_of_the_solver_one_by_one() {
    let nodes = tree();
    let nothing = vec![0; 5];
    let fit_widths = fit_sizes(&nodes, &nothing, Axis::X);
    assert_eq!(fit_widths, px(&[150, 130, 40, 110, 50]));
    let widths = size_along_axis(&nodes, &fit_widths, Axis::X);
    assert_eq!(widths, px(&[150, 130, 40, 110, 50]));
    // The text has 110 - 5 - 40 pixels, which hold six characters.
    let (breaks, extra) = wrap_all(&nodes, &widths);
    assert_eq!(breaks, vec![vec![], vec![], vec![], vec![5], vec![]]);
    assert_eq!(extra, px(&[0, 0, 0, 20, 0]));
    let fit_heights = fit_sizes(&nodes, &extra, Axis::Y);
    assert_eq!(fit_heights, px(&[100, 85, 20, 40, 50]));
    let heights = size_along_axis(&nodes, &fit_heights, Axis::Y);
    assert_eq!(heights, px(&[100, 100, 20, 40, 50]));
    assert_eq!(position_along_axis(&nodes, &widths, Axis::X), px(&[0, 0, 10, 10, 130]));
    assert_eq!(position_along_axis(&nodes, &heights, Axis::Y), px(&[0, 0, 10, 35, 0]));
}

#[test]
fn the_solver_as_a_whole() {
    let layout = solve(&tree());
    assert_eq!(layout.widths, px(&[150, 130, 40, 110, 50]));
    assert_eq!(layout.heights, px(&[100, 100, 20, 40, 50]));
    assert_eq!(layout.xs, px(&[0, 0, 10, 10, 130]));
    assert_eq!(layout.ys, px(&[0, 0, 10, 35, 0]));
    assert_eq!(layout.breaks, vec![vec![], vec![], vec![], vec![5], vec![]]);
}

#[test]
fn the_solver_agrees_with_the_layout_that_is_built() {
    let mut ui = CatplushContext::begin_layout((150, 100), ChildLayoutDirection::LeftToRight);
    for built in tree().into_iter().skip(1) {
        while *ui.open_layout_elements.last().unwrap() != built.parent.unwrap() {
            ui.close_element();
        }
        ui.open_element(built.element);
    }
    let commands = ui.end_layout();
    let layout = solve(&tree());
    assert_eq!(commands.len(), 4);
    for (i, command) in commands.iter().enumerate() {
        assert_eq!(command.bounding_box.x, layout.xs[i + 1]);
        assert_eq!(command.bounding_box.y, layout.ys[i + 1]);
        assert_eq!(command.bounding_box.width, layout.widths[i + 1]);
        assert_eq!(command.bounding_box.height, layout.heights[i + 1]);
    }
}

#[test]
fn rows_of_children() {
    let nodes = tree();
    let values = vec![10, 20, 30, 40, 50];
    assert_eq!(gather(&nodes, &values, 0), vec![20, 50]);
    assert_eq!(gather(&nodes, &values, 1), vec![30, 40]);
    assert!(gather(&nodes, &values, 4).is_empty());
    assert_eq!(sum_row(&vec![20, 50, 7]), 77);
    assert_eq!(sum_row(&vec![]), 0);
}
