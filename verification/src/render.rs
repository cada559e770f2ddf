use crate::bitmap::BitmapConfiguration;
use crate::color::ObjectColor;
use crate::config::{Axis, BorderWidth, CornerRadius};
use crate::element::{ObjectType, UiElement};
use crate::solver::{breaks_at, extra_heights, fit, laid_out, no_extra, solve, Layout};
use crate::tree::{
    all_closed, end_of, is_open, kid_spans, kids, node_linked, node_spans, nodes_wf,
    CatplushContext, Node,
};
use crate::wrap::{merge_breaks, merged};
use vstd::prelude::*;

verus! {

/// Where an element lies in the window, in subpixels from its top left
/// corner.
#[derive(Clone, Copy, Debug, PartialEq, Eq, Structural)]
pub struct BoundingBox {
    pub x: i128,
    pub y: i128,
    pub width: i128,
    pub height: i128,
}

/// How a rectangle is drawn.
#[derive(Clone, Copy, Debug, PartialEq, Eq, Structural)]
pub struct RectangleRenderData {
    pub color: ObjectColor,
    pub stroke_color: ObjectColor,
    pub corner_radius: CornerRadius,
    pub border_width: BorderWidth,
}

/// How a text is drawn.
pub struct TextRenderData {
    pub bitmap: BitmapConfiguration,
    pub text: String,
    /// The height of a line, in pixels.
    pub font_size: u32,
    /// The indices of the characters at which a line ends, in rising
    /// order: the line feeds of the text and where the solver wrapped it.
    pub split_indices: Vec<usize>,
}

/// How an image is drawn.
#[derive(Clone, Copy, Debug, PartialEq, Eq, Structural)]
pub struct TextureRenderData {
    pub texture_id: u32,
    pub width: i32,
    pub height: i32,
}

/// What a render command draws.
pub enum RenderData {
    /// Nothing: the element only took part in the layout.
    NoType,
    RectangleData(RectangleRenderData),
    TextData(TextRenderData),
    ImageData(TextureRenderData),
}

/// One element as the renderer gets it.
pub struct RenderCommand {
    pub bounding_box: BoundingBox,
    pub render_data: RenderData,
    /// The identifier of the element; empty where it has none.
    pub id: &'static str,
}

/// The tree with every node closed that was still open.
pub open spec fn finished(nodes: Seq<Node>) -> Seq<Node> {
    Seq::new(
        nodes.len(),
        |i: int|
            Node {
                parent: nodes[i].parent,
                element: nodes[i].element,
                child_elements: nodes[i].child_elements,
                subtree_end: Some(end_of(nodes, i) as usize),
            },
    )
}

/// Closing the nodes that are still open leaves the elements and their
/// order as they are, and the tree well formed.
pub proof fn lemma_finished(nodes: Seq<Node>)
    requires
        nodes_wf(nodes),
    ensures
        nodes_wf(finished(nodes)),
        all_closed(finished(nodes)),
        finished(nodes).len() == nodes.len(),
        forall|i: int|
            0 <= i < nodes.len() ==> {
                &&& (#[trigger] finished(nodes)[i]).parent == nodes[i].parent
                &&& finished(nodes)[i].element == nodes[i].element
                &&& finished(nodes)[i].child_elements == nodes[i].child_elements
            },
{
    let done = finished(nodes);
    assert forall|i: int| 0 <= i < done.len() implies end_of(done, i) == end_of(nodes, i) && kids(
        done,
        i,
    ) == kids(nodes, i) by {
        assert(node_spans(nodes, i));
    }
    assert forall|i: int| 0 <= i < done.len() implies #[trigger] node_linked(done, i) by {
        assert(node_linked(nodes, i));
        if i > 0 {
            let p = nodes[i].parent->0 as int;
            let k = choose|k: int| #[trigger] crate::tree::is_kid(nodes, p, k, i);
            assert(crate::tree::is_kid(done, p, k, i));
        }
    }
    assert forall|i: int| 0 <= i < done.len() implies #[trigger] node_spans(done, i) by {
        assert(node_spans(nodes, i));
        let ks = kids(nodes, i);
        if ks.len() > 0 {
            assert(kid_spans(nodes, i, ks.len() - 1));
        }
        assert forall|k: int| 0 <= k < kids(done, i).len() implies #[trigger] kid_spans(
            done,
            i,
            k,
        ) by {
            assert(kid_spans(nodes, i, k));
            if k < ks.len() - 1 {
                assert(kid_spans(nodes, i, k + 1));
            }
        }
    }
    assert forall|i: int| 0 <= i < done.len() implies !#[trigger] is_open(done, i) by {}
}

/// What the renderer draws for an element whose text, if it is one, the
/// solver broke at `breaks`.
pub open spec fn draws(element: UiElement, breaks: Seq<int>, data: RenderData) -> bool {
    match element.object_type {
        ObjectType::Unset => data is NoType,
        ObjectType::Rectangle => data == RenderData::RectangleData(
            RectangleRenderData {
                color: element.color,
                stroke_color: element.stroke_color,
                corner_radius: element.corner_radius,
                border_width: element.border_width,
            },
        ),
        ObjectType::Text(t) => data matches RenderData::TextData(d) && {
            &&& d.bitmap == t.bitmap
            &&& d.text@ == t.text@
            &&& d.font_size == t.font_size
            &&& d.split_indices@.map_values(|b: usize| b as int) == merged(
                t.split_indices@.map_values(|b: usize| b as int),
                breaks,
            )
        },
        ObjectType::Image(i) => data == RenderData::ImageData(
            TextureRenderData { texture_id: i.texture_id, width: i.width, height: i.height },
        ),
    }
}

/// The identifier that a command carries for an element.
pub open spec fn id_of(element: UiElement) -> Seq<char> {
    match element.id {
        Some(id) => id@,
        None => Seq::empty(),
    }
}

/// One row of a layout as the commands hold it: the entry of the root,
/// which has no command, and behind it the entry of each command.
pub open spec fn with_root(root: i128, rest: Seq<i128>) -> Seq<i128> {
    seq![root] + rest
}

/// The widths of the commands.
pub open spec fn widths_of(cmds: Seq<RenderCommand>) -> Seq<i128> {
    Seq::new(cmds.len(), |i: int| cmds[i].bounding_box.width)
}

/// The heights of the commands.
pub open spec fn heights_of(cmds: Seq<RenderCommand>) -> Seq<i128> {
    Seq::new(cmds.len(), |i: int| cmds[i].bounding_box.height)
}

/// Where the commands start from left to right.
pub open spec fn xs_of(cmds: Seq<RenderCommand>) -> Seq<i128> {
    Seq::new(cmds.len(), |i: int| cmds[i].bounding_box.x)
}

/// Where the commands start from top to bottom.
pub open spec fn ys_of(cmds: Seq<RenderCommand>) -> Seq<i128> {
    Seq::new(cmds.len(), |i: int| cmds[i].bounding_box.y)
}

/// The width of every node, the root included, as the commands give it.
pub open spec fn all_widths(nodes: Seq<Node>, cmds: Seq<RenderCommand>) -> Seq<i128> {
    with_root(fit(nodes, no_extra(nodes.len()), Axis::X, 0) as i128, widths_of(cmds))
}

/// The height of every node, the root included, as the commands give it.
pub open spec fn all_heights(nodes: Seq<Node>, cmds: Seq<RenderCommand>) -> Seq<i128> {
    with_root(
        fit(nodes, extra_heights(nodes, all_widths(nodes, cmds)), Axis::Y, 0) as i128,
        heights_of(cmds),
    )
}

/// `cmds` is what the tree gives the renderer: one command for each node
/// but the root, in the order of the nodes, with the box that the layout
/// gives the node and with what the element of the node draws.
pub open spec fn rendered(nodes: Seq<Node>, cmds: Seq<RenderCommand>) -> bool {
    &&& cmds.len() == nodes.len() - 1
    &&& laid_out(
        nodes,
        all_widths(nodes, cmds),
        all_heights(nodes, cmds),
        with_root(0, xs_of(cmds)),
        with_root(0, ys_of(cmds)),
    )
    &&& forall|i: int|
        1 <= i < nodes.len() ==> draws(
            nodes[i].element,
            breaks_at(nodes, all_widths(nodes, cmds), i),
            (#[trigger] cmds[i - 1]).render_data,
        ) && cmds[i - 1].id@ == id_of(nodes[i].element)
}

impl CatplushContext {
    /// `cmds` is what this layout gives the renderer, once every node that
    /// is still open has been closed.
    pub open spec fn emits(&self, cmds: Seq<RenderCommand>) -> bool {
        rendered(finished(self.layout_elements@), cmds)
    }

    /// Closes what is still open, solves the layout and gives the renderer
    /// its commands: one for each element, in the order in which the
    /// elements were opened.
    pub fn end_layout(self) -> (render_commands: Vec<RenderCommand>)
        requires
            self.wf(),
        ensures
            self.emits(render_commands@),
    {
        let mut nodes: Vec<Node> = self.layout_elements;
        let ghost was = nodes@;
        let n: usize = nodes.len();
        let mut c: usize = 0;
        while c < n
            invariant
                c <= n == nodes.len(),
                was.len() == n,
                nodes_wf(was),
                forall|i: int| 0 <= i < c ==> nodes[i] == finished(was)[i],
                forall|i: int| c <= i < n ==> nodes[i] == was[i],
            decreases n - c,
        {
            proof {
                assert(node_spans(was, c as int));
            }
            if nodes[c].subtree_end.is_none() {
                nodes[c].subtree_end = Some(n);
            }
            c = c + 1;
        }
        proof {
            assert(nodes@ =~= finished(was));
            lemma_finished(was);
        }
        let lay: Layout = solve(&nodes);
        let mut render_commands: Vec<RenderCommand> = Vec::new();
        let mut i: usize = 1;
        while i < n
            invariant
                1 <= i <= n == nodes.len(),
                nodes_wf(nodes@),
                lay.widths.len() == n,
                lay.heights.len() == n,
                lay.xs.len() == n,
                lay.ys.len() == n,
                lay.breaks.len() == n,
                forall|j: int|
                    0 <= j < n ==> (#[trigger] lay.breaks[j])@.map_values(|b: usize| b as int)
                        == breaks_at(nodes@, lay.widths@, j),
                render_commands.len() == i - 1,
                forall|j: int|
                    1 <= j < i ==> {
                        let cmd = #[trigger] render_commands[j - 1];
                        &&& cmd.bounding_box == (BoundingBox {
                            x: lay.xs[j],
                            y: lay.ys[j],
                            width: lay.widths[j],
                            height: lay.heights[j],
                        })
                        &&& draws(
                            nodes[j].element,
                            breaks_at(nodes@, lay.widths@, j),
                            cmd.render_data,
                        )
                        &&& cmd.id@ == id_of(nodes[j].element)
                    },
            decreases n - i,
        {
            let element = &nodes[i].element;
            let bounding_box = BoundingBox {
                x: lay.xs[i],
                y: lay.ys[i],
                width: lay.widths[i],
                height: lay.heights[i],
            };
            let render_data = match &element.object_type {
                ObjectType::Unset => RenderData::NoType,
                ObjectType::Rectangle => RenderData::RectangleData(
                    RectangleRenderData {
                        color: element.color,
                        stroke_color: element.stroke_color,
                        corner_radius: element.corner_radius,
                        border_width: element.border_width,
                    },
                ),
                ObjectType::Text(data) => RenderData::TextData(
                    TextRenderData {
                        bitmap: data.bitmap.duplicate(),
                        text: data.text.clone(),
                        font_size: data.font_size,
                        split_indices: merge_breaks(&data.split_indices, &lay.breaks[i]),
                    },
                ),
                ObjectType::Image(data) => RenderData::ImageData(
                    TextureRenderData {
                        texture_id: data.texture_id,
                        width: data.width,
                        height: data.height,
                    },
                ),
            };
            let id: &'static str = match element.id {
                Some(id) => id,
                None => {
                    proof {
                        reveal_strlit("");
                    }
                    ""
                },
            };
            render_commands.push(RenderCommand { bounding_box, render_data, id });
            i = i + 1;
        }
        proof {
            let cmds = render_commands@;
            assert(lay.widths@ =~= all_widths(nodes@, cmds)) by {
                assert(lay.widths@[0] == fit(nodes@, no_extra(nodes@.len()), Axis::X, 0) as i128);
            }
            assert(lay.heights@ =~= all_heights(nodes@, cmds)) by {
                assert(lay.heights@[0] == fit(
                    nodes@,
                    extra_heights(nodes@, lay.widths@),
                    Axis::Y,
                    0,
                ) as i128);
            }
            assert(lay.xs@ =~= with_root(0, xs_of(cmds)));
            assert(lay.ys@ =~= with_root(0, ys_of(cmds)));
        }
        render_commands
    }
}

} // verus!
