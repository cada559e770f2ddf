use crate::config::{Anchor, Axis, ChildLayoutDirection, SizingMode, SUBPIXELS};
use crate::distribute::{
    distribute, eligible_count, lemma_distribute, lemma_eligible_count_bounds,
};
use crate::element::{lemma_line_feeds, line_feeds, ObjectType};
use crate::place::{
    gap_total, lemma_column_inside, lemma_gap_total_scales, lemma_row_ends_inside,
    lemma_row_inside, sum,
};
use crate::render::{
    all_heights, all_widths, draws, finished, id_of, lemma_finished, rendered, with_root, xs_of,
    ys_of, RenderCommand, RenderData, TextRenderData,
};
use crate::solver::{
    available_for, breaks_at, child_spans, child_values, config_of, extra_heights,
    extras_bounded, fit, fit_seq, frame_of, kid_placed, kid_settled, lemma_extra_heights,
    lemma_fit_range, lemma_kid_count, lemma_kids_rise, lemma_total_is_sum, lines_up, no_extra,
    placed, room, settle, settled, slack_of,
};
use crate::tree::{
    all_closed, is_kid, kid_spans, kids, node_linked, node_spans, nodes_wf, CatplushContext,
    Node,
};
use crate::wrap::{lemma_merged_from, lemma_wrap_breaks, merged, rising};
use vstd::prelude::*;

verus! {

/// What has to hold of a tree and of what its nodes need on top before
/// anything is said of its layout along one axis.
pub open spec fn sized(nodes: Seq<Node>, extra: Seq<i128>, axis: Axis, sizes: Seq<i128>) -> bool {
    &&& nodes_wf(nodes)
    &&& all_closed(nodes)
    &&& extras_bounded(extra)
    &&& settled(nodes, fit_seq(nodes, extra, axis), axis, sizes)
}

/// What decides whether the child `k` of node `p` stays within its
/// limits: what the child asks for, or, for a child that grows across the
/// row of its parent, what the parent has between its paddings.
pub open spec fn decisive(
    nodes: Seq<Node>,
    extra: Seq<i128>,
    axis: Axis,
    sizes: Seq<i128>,
    p: int,
    k: int,
) -> int {
    let c = kids(nodes, p)[k] as int;
    if config_of(nodes, c).sizing.along(axis) == SizingMode::Grow && !lines_up(nodes, axis, p) {
        if room(nodes, axis, p, sizes[p] as int) > 0 {
            room(nodes, axis, p, sizes[p] as int)
        } else {
            0
        }
    } else {
        fit(nodes, extra, axis, c)
    }
}

/// The final size of a child and its limits. No size is negative. A
/// child that does not grow has the size that it asks for. A child that
/// grows in a row gets no smaller than it asks to be and goes beyond its
/// greatest size only where it asked for more; across the row it takes
/// what its parent has between its paddings. So the size of a child lies
/// within its limits exactly if what decides it does: what the child asks
/// for, or, for a child that grows across the row, the room of its parent.
pub proof fn law_sizes_respect_limits(
    nodes: Seq<Node>,
    extra: Seq<i128>,
    axis: Axis,
    sizes: Seq<i128>,
    p: int,
    k: int,
)
    requires
        sized(nodes, extra, axis, sizes),
        0 <= p < nodes.len(),
        0 <= k < kids(nodes, p).len(),
    ensures
        ({
            let c = kids(nodes, p)[k] as int;
            let asked = fit(nodes, extra, axis, c);
            let limit = config_of(nodes, c).size_constraints.along(axis);
            let grows = config_of(nodes, c).sizing.along(axis) == SizingMode::Grow;
            &&& 0 <= sizes[c]
            &&& !grows ==> sizes[c] == asked
            &&& grows && lines_up(nodes, axis, p) ==> asked <= sizes[c] && (sizes[c] <= limit.max
                * SUBPIXELS || sizes[c] == asked)
            &&& grows && !lines_up(nodes, axis, p) ==> sizes[c] == decisive(
                nodes,
                extra,
                axis,
                sizes,
                p,
                k,
            )
            &&& limit.min * SUBPIXELS <= sizes[c] <= limit.max * SUBPIXELS <==> limit.min
                * SUBPIXELS <= decisive(nodes, extra, axis, sizes, p, k) <= limit.max * SUBPIXELS
        }),
{
    let fits = fit_seq(nodes, extra, axis);
    let c = kids(nodes, p)[k] as int;
    assert(node_spans(nodes, p));
    assert(kid_spans(nodes, p, k));
    lemma_fit_range(nodes, extra, axis, c);
    assert(node_linked(nodes, p));
    assert(kid_settled(nodes, fits, axis, sizes, p, k));
    let wanted = child_spans(nodes, fits, axis, p);
    assert(wanted[k].size == fits[c]);
    if lines_up(nodes, axis, p) {
        let slack = slack_of(nodes, fits, axis, p, sizes[p] as int);
        let unevenly = config_of(nodes, p).grow_elements_unevenly;
        lemma_distribute(wanted, slack, unevenly);
        let given = distribute(wanted, slack, unevenly);
        assert(settle(nodes, fits, axis, p, sizes[p] as int) == given);
        assert(sizes[c] == given[k].size);
    }
}

/// The root has the size that it asks for.
pub proof fn law_root_size(nodes: Seq<Node>, extra: Seq<i128>, axis: Axis, sizes: Seq<i128>)
    requires
        sized(nodes, extra, axis, sizes),
    ensures
        sizes[0] == fit(nodes, extra, axis, 0),
{
    lemma_fit_range(nodes, extra, axis, 0);
}

/// What the children of node `p` ask for along `axis`, added up.
pub open spec fn row_asked(nodes: Seq<Node>, extra: Seq<i128>, axis: Axis, p: int) -> int {
    sum(child_values(nodes, fit_seq(nodes, extra, axis), p), kids(nodes, p).len() as int)
}

/// The final sizes of the children of node `p`, added up.
pub open spec fn row_sum(nodes: Seq<Node>, sizes: Seq<i128>, p: int) -> int {
    sum(child_values(nodes, sizes, p), kids(nodes, p).len() as int)
}

/// What node `p` keeps for its padding and for the gaps between its
/// children where it lines them up, in subpixels.
pub open spec fn row_frame(nodes: Seq<Node>, axis: Axis, p: int) -> int {
    (config_of(nodes, p).padding.near(axis) + config_of(nodes, p).padding.far(axis) + gap_total(
        kids(nodes, p).len() as int,
        config_of(nodes, p).child_gap as int,
    )) * SUBPIXELS
}

/// Growing never makes a row overflow. Where the children of a node fit
/// into it as they ask to be, with the gaps and the padding, they still
/// fit at their final sizes; where they do not, none of them grows.
pub proof fn law_row_fits_parent(
    nodes: Seq<Node>,
    extra: Seq<i128>,
    axis: Axis,
    sizes: Seq<i128>,
    p: int,
)
    requires
        sized(nodes, extra, axis, sizes),
        0 <= p < nodes.len(),
        lines_up(nodes, axis, p),
    ensures
        row_asked(nodes, extra, axis, p) <= row_sum(nodes, sizes, p),
        row_asked(nodes, extra, axis, p) + row_frame(nodes, axis, p) <= sizes[p] ==> row_sum(
            nodes,
            sizes,
            p,
        ) + row_frame(nodes, axis, p) <= sizes[p],
        row_asked(nodes, extra, axis, p) + row_frame(nodes, axis, p) > sizes[p] ==> row_sum(
            nodes,
            sizes,
            p,
        ) == row_asked(nodes, extra, axis, p),
{
    let fits = fit_seq(nodes, extra, axis);
    let count = kids(nodes, p).len() as int;
    let wanted = child_spans(nodes, fits, axis, p);
    let given = settle(nodes, fits, axis, p, sizes[p] as int);
    let slack = slack_of(nodes, fits, axis, p, sizes[p] as int);
    assert(node_spans(nodes, p));
    lemma_distribute(wanted, slack, config_of(nodes, p).grow_elements_unevenly);
    lemma_total_is_sum(wanted, child_values(nodes, fits, p), count);
    assert forall|k: int| 0 <= k < count implies given[k].size == child_values(
        nodes,
        sizes,
        p,
    )[k] by {
        assert(kid_settled(nodes, fits, axis, sizes, p, k));
    }
    lemma_total_is_sum(given, child_values(nodes, sizes, p), count);
}

/// How many children of node `p` could still grow along `axis` at their
/// final sizes: those that grow and are below their greatest size.
pub open spec fn row_able(
    nodes: Seq<Node>,
    extra: Seq<i128>,
    axis: Axis,
    sizes: Seq<i128>,
    p: int,
) -> int {
    eligible_count(
        settle(nodes, fit_seq(nodes, extra, axis), axis, p, sizes[p] as int),
        kids(nodes, p).len() as int,
    )
}

/// A row is filled as far as it can be: where a child of the row could
/// still grow, the space that the children leave free at their final
/// sizes is less than a hundredth of a pixel in all, and less than one
/// subpixel for each child that could still grow.
pub proof fn law_row_is_filled(
    nodes: Seq<Node>,
    extra: Seq<i128>,
    axis: Axis,
    sizes: Seq<i128>,
    p: int,
)
    requires
        sized(nodes, extra, axis, sizes),
        0 <= p < nodes.len(),
        lines_up(nodes, axis, p),
    ensures
        0 <= row_able(nodes, extra, axis, sizes, p) <= kids(nodes, p).len(),
        row_able(nodes, extra, axis, sizes, p) == 0 || sizes[p] - row_frame(nodes, axis, p)
            - row_sum(nodes, sizes, p) < row_able(nodes, extra, axis, sizes, p),
        row_able(nodes, extra, axis, sizes, p) == 0 || (sizes[p] - row_frame(nodes, axis, p)
            - row_sum(nodes, sizes, p)) * 100 < SUBPIXELS,
{
    let fits = fit_seq(nodes, extra, axis);
    let count = kids(nodes, p).len() as int;
    let wanted = child_spans(nodes, fits, axis, p);
    let given = settle(nodes, fits, axis, p, sizes[p] as int);
    let slack = slack_of(nodes, fits, axis, p, sizes[p] as int);
    assert(node_spans(nodes, p));
    lemma_kid_count(nodes, p, count);
    lemma_distribute(wanted, slack, config_of(nodes, p).grow_elements_unevenly);
    lemma_eligible_count_bounds(given, count);
    lemma_total_is_sum(wanted, child_values(nodes, fits, p), count);
    assert forall|k: int| 0 <= k < count implies given[k].size == child_values(
        nodes,
        sizes,
        p,
    )[k] by {
        assert(kid_settled(nodes, fits, axis, sizes, p, k));
    }
    lemma_total_is_sum(given, child_values(nodes, sizes, p), count);
}

/// A child in a row ends in front of the far padding of its parent, where
/// the children of the parent fit into it as they ask to be or are moved
/// to the far side; and it starts behind the near padding where they fit.
pub proof fn law_row_inside_parent(
    nodes: Seq<Node>,
    extra: Seq<i128>,
    axis: Axis,
    sizes: Seq<i128>,
    at: Seq<i128>,
    p: int,
    k: int,
)
    requires
        sized(nodes, extra, axis, sizes),
        placed(nodes, axis, sizes, at),
        0 <= p < nodes.len(),
        0 <= k < kids(nodes, p).len(),
        lines_up(nodes, axis, p),
        row_asked(nodes, extra, axis, p) + row_frame(nodes, axis, p) <= sizes[p] || config_of(
            nodes,
            p,
        ).child_alignment.along(axis) == Anchor::End,
    ensures
        ({
            let c = kids(nodes, p)[k] as int;
            &&& at[c] + sizes[c] <= at[p] + sizes[p] - config_of(nodes, p).padding.far(axis)
                * SUBPIXELS
            &&& row_asked(nodes, extra, axis, p) + row_frame(nodes, axis, p) <= sizes[p] ==> at[p]
                + config_of(nodes, p).padding.near(axis) * SUBPIXELS <= at[c]
        }),
{
    let frame = frame_of(nodes, axis, sizes, at, p);
    let row = child_values(nodes, sizes, p);
    law_row_fits_parent(nodes, extra, axis, sizes, p);
    assert(node_linked(nodes, p));
    assert(kid_placed(nodes, axis, sizes, at, p, k));
    assert forall|j: int| 0 <= j < row.len() implies row[j] >= 0 by {
        law_sizes_respect_limits(nodes, extra, axis, sizes, p, j);
    }
    lemma_gap_total_scales(
        kids(nodes, p).len() as int,
        config_of(nodes, p).child_gap as int,
        SUBPIXELS as int,
    );
    if row_asked(nodes, extra, axis, p) + row_frame(nodes, axis, p) <= sizes[p] {
        lemma_row_inside(frame, row, k);
    } else {
        lemma_row_ends_inside(frame, row, k);
    }
}

/// A child across the row of its parent lies between the two paddings of
/// the parent, where it is not larger than the space between them.
pub proof fn law_column_inside_parent(
    nodes: Seq<Node>,
    axis: Axis,
    sizes: Seq<i128>,
    at: Seq<i128>,
    p: int,
    k: int,
)
    requires
        nodes_wf(nodes),
        placed(nodes, axis, sizes, at),
        0 <= p < nodes.len(),
        0 <= k < kids(nodes, p).len(),
        !lines_up(nodes, axis, p),
        sizes[kids(nodes, p)[k] as int] <= room(nodes, axis, p, sizes[p] as int),
    ensures
        ({
            let c = kids(nodes, p)[k] as int;
            &&& at[p] + config_of(nodes, p).padding.near(axis) * SUBPIXELS <= at[c]
            &&& at[c] + sizes[c] <= at[p] + sizes[p] - config_of(nodes, p).padding.far(axis)
                * SUBPIXELS
        }),
{
    let frame = frame_of(nodes, axis, sizes, at, p);
    let row = child_values(nodes, sizes, p);
    assert(node_linked(nodes, p));
    assert(kid_placed(nodes, axis, sizes, at, p, k));
    lemma_column_inside(frame, row, k);
}

/// A child that grows across the row of its parent fills the space
/// between the paddings of the parent, wherever the parent puts its
/// children, unless the paddings leave no space.
pub proof fn law_grown_across_fills_parent(
    nodes: Seq<Node>,
    extra: Seq<i128>,
    axis: Axis,
    sizes: Seq<i128>,
    at: Seq<i128>,
    p: int,
    k: int,
)
    requires
        sized(nodes, extra, axis, sizes),
        placed(nodes, axis, sizes, at),
        0 <= p < nodes.len(),
        0 <= k < kids(nodes, p).len(),
        !lines_up(nodes, axis, p),
        config_of(nodes, kids(nodes, p)[k] as int).sizing.along(axis) == SizingMode::Grow,
        room(nodes, axis, p, sizes[p] as int) >= 0,
    ensures
        ({
            let c = kids(nodes, p)[k] as int;
            &&& at[c] == at[p] + config_of(nodes, p).padding.near(axis) * SUBPIXELS
            &&& at[c] + sizes[c] == at[p] + sizes[p] - config_of(nodes, p).padding.far(axis)
                * SUBPIXELS
        }),
{
    law_sizes_respect_limits(nodes, extra, axis, sizes, p, k);
    assert(node_linked(nodes, p));
    assert(kid_placed(nodes, axis, sizes, at, p, k));
}

/// The commands of a tree give its layout along both axes.
pub proof fn lemma_rendered_is_sized(nodes: Seq<Node>, cmds: Seq<RenderCommand>)
    requires
        nodes_wf(nodes),
        all_closed(nodes),
        rendered(nodes, cmds),
    ensures
        sized(nodes, no_extra(nodes.len()), Axis::X, all_widths(nodes, cmds)),
        sized(
            nodes,
            extra_heights(nodes, all_widths(nodes, cmds)),
            Axis::Y,
            all_heights(nodes, cmds),
        ),
        placed(nodes, Axis::X, all_widths(nodes, cmds), with_root(0, xs_of(cmds))),
        placed(nodes, Axis::Y, all_heights(nodes, cmds), with_root(0, ys_of(cmds))),
{
    lemma_extra_heights(nodes, all_widths(nodes, cmds));
}

/// What a layout gives the renderer is the layout of its tree with
/// every node closed, along both axes.
pub proof fn lemma_emitted_is_sized(ctx: CatplushContext, cmds: Seq<RenderCommand>)
    requires
        ctx.wf(),
        ctx.emits(cmds),
    ensures
        ({
            let nodes = finished(ctx.layout_elements@);
            &&& sized(nodes, no_extra(nodes.len()), Axis::X, all_widths(nodes, cmds))
            &&& sized(
                nodes,
                extra_heights(nodes, all_widths(nodes, cmds)),
                Axis::Y,
                all_heights(nodes, cmds),
            )
            &&& placed(nodes, Axis::X, all_widths(nodes, cmds), with_root(0, xs_of(cmds)))
            &&& placed(nodes, Axis::Y, all_heights(nodes, cmds), with_root(0, ys_of(cmds)))
        }),
{
    lemma_finished(ctx.layout_elements@);
    lemma_rendered_is_sized(finished(ctx.layout_elements@), cmds);
}

/// Sizes that are settled are settled in one way only.
pub proof fn lemma_settled_once(
    nodes: Seq<Node>,
    fits: Seq<i128>,
    axis: Axis,
    one: Seq<i128>,
    other: Seq<i128>,
    i: int,
)
    requires
        nodes_wf(nodes),
        settled(nodes, fits, axis, one),
        settled(nodes, fits, axis, other),
        0 <= i < nodes.len(),
    ensures
        one[i] == other[i],
    decreases i,
{
    if i > 0 {
        assert(node_linked(nodes, i));
        let p = nodes[i].parent->0 as int;
        let k = choose|k: int| #[trigger] is_kid(nodes, p, k, i);
        lemma_settled_once(nodes, fits, axis, one, other, p);
        assert(kid_settled(nodes, fits, axis, one, p, k));
        assert(kid_settled(nodes, fits, axis, other, p, k));
    }
}

/// Nodes that are placed are placed in one way only.
pub proof fn lemma_placed_once(
    nodes: Seq<Node>,
    axis: Axis,
    sizes: Seq<i128>,
    one: Seq<i128>,
    other: Seq<i128>,
    i: int,
)
    requires
        nodes_wf(nodes),
        placed(nodes, axis, sizes, one),
        placed(nodes, axis, sizes, other),
        0 <= i < nodes.len(),
    ensures
        one[i] == other[i],
    decreases i,
{
    if i > 0 {
        assert(node_linked(nodes, i));
        let p = nodes[i].parent->0 as int;
        let k = choose|k: int| #[trigger] is_kid(nodes, p, k, i);
        lemma_placed_once(nodes, axis, sizes, one, other, p);
        assert(kid_placed(nodes, axis, sizes, one, p, k));
        assert(kid_placed(nodes, axis, sizes, other, p, k));
    }
}

/// What two commands for one element have in common: the identifier and
/// what they draw.
pub open spec fn same_drawing(a: RenderCommand, b: RenderCommand) -> bool {
    &&& a.id@ == b.id@
    &&& match (a.render_data, b.render_data) {
        (RenderData::NoType, RenderData::NoType) => true,
        (RenderData::RectangleData(x), RenderData::RectangleData(y)) => x == y,
        (RenderData::ImageData(x), RenderData::ImageData(y)) => x == y,
        (RenderData::TextData(x), RenderData::TextData(y)) => {
            &&& x.bitmap == y.bitmap
            &&& x.text@ == y.text@
            &&& x.font_size == y.font_size
            &&& x.split_indices@ == y.split_indices@
        },
        _ => false,
    }
}

/// A tree has one layout: two lists of commands for the same tree hold
/// the same boxes and the same drawings in the same order.
pub proof fn law_layout_is_determined(
    nodes: Seq<Node>,
    one: Seq<RenderCommand>,
    other: Seq<RenderCommand>,
)
    requires
        nodes_wf(nodes),
        rendered(nodes, one),
        rendered(nodes, other),
    ensures
        one.len() == other.len(),
        forall|i: int|
            0 <= i < one.len() ==> (#[trigger] one[i]).bounding_box == other[i].bounding_box
                && same_drawing(one[i], other[i]),
{
    let n = nodes.len();
    let w1 = all_widths(nodes, one);
    let w2 = all_widths(nodes, other);
    assert forall|i: int| 0 <= i < n implies w1[i] == w2[i] by {
        lemma_settled_once(nodes, fit_seq(nodes, no_extra(n), Axis::X), Axis::X, w1, w2, i);
    }
    assert(w1 =~= w2);
    let h1 = all_heights(nodes, one);
    let h2 = all_heights(nodes, other);
    assert forall|i: int| 0 <= i < n implies h1[i] == h2[i] by {
        lemma_settled_once(
            nodes,
            fit_seq(nodes, extra_heights(nodes, w1), Axis::Y),
            Axis::Y,
            h1,
            h2,
            i,
        );
    }
    assert(h1 =~= h2);
    let x1 = with_root(0, xs_of(one));
    let x2 = with_root(0, xs_of(other));
    let y1 = with_root(0, ys_of(one));
    let y2 = with_root(0, ys_of(other));
    assert forall|i: int| 0 <= i < one.len() implies (#[trigger] one[i]).bounding_box
        == other[i].bounding_box && same_drawing(one[i], other[i]) by {
        lemma_placed_once(nodes, Axis::X, w1, x1, x2, i + 1);
        lemma_placed_once(nodes, Axis::Y, h1, y1, y2, i + 1);
        assert(w1[i + 1] == one[i].bounding_box.width);
        assert(w2[i + 1] == other[i].bounding_box.width);
        assert(h1[i + 1] == one[i].bounding_box.height);
        assert(h2[i + 1] == other[i].bounding_box.height);
        assert(x1[i + 1] == one[i].bounding_box.x);
        assert(x2[i + 1] == other[i].bounding_box.x);
        assert(y1[i + 1] == one[i].bounding_box.y);
        assert(y2[i + 1] == other[i].bounding_box.y);
        assert(one[i + 1 - 1] == one[i]);
        assert(other[i + 1 - 1] == other[i]);
        let a = one[i].render_data;
        let b = other[i].render_data;
        if a is TextData && b is TextData {
            let x = a->TextData_0.split_indices@;
            let y = b->TextData_0.split_indices@;
            assert(x.map_values(|v: usize| v as int) == y.map_values(|v: usize| v as int));
            assert(x =~= y) by {
                assert(x.len() == x.map_values(|v: usize| v as int).len());
                assert(y.len() == y.map_values(|v: usize| v as int).len());
                assert forall|j: int| 0 <= j < x.len() implies x[j] == y[j] by {
                    assert(x.map_values(|v: usize| v as int)[j] == x[j] as int);
                    assert(y.map_values(|v: usize| v as int)[j] == y[j] as int);
                }
            }
        }
    }
}

/// A layout on which nothing was opened gives the renderer no command.
pub proof fn law_nothing_opened_nothing_drawn(
    ctx: CatplushContext,
    window_size: (i32, i32),
    direction: ChildLayoutDirection,
    cmds: Seq<RenderCommand>,
)
    requires
        ctx.begun(window_size, direction),
        ctx.emits(cmds),
    ensures
        cmds.len() == 0,
{
}

/// The command `i` of a layout is that of the element that was opened as
/// the element `i + 1`, counting the root: it draws that element and has
/// its identifier.
pub proof fn law_commands_follow_the_elements(
    ctx: CatplushContext,
    cmds: Seq<RenderCommand>,
    i: int,
)
    requires
        ctx.wf(),
        ctx.emits(cmds),
        0 <= i < cmds.len(),
    ensures
        cmds.len() == ctx.node_count() - 1,
        draws(
            ctx.layout_elements@[i + 1].element,
            breaks_at(
                finished(ctx.layout_elements@),
                all_widths(finished(ctx.layout_elements@), cmds),
                i + 1,
            ),
            cmds[i].render_data,
        ),
        cmds[i].id@ == id_of(ctx.layout_elements@[i + 1].element),
{
    lemma_finished(ctx.layout_elements@);
    assert(cmds[i + 1 - 1] == cmds[i]);
}

/// What the command of a text draws.
pub open spec fn text_of(cmd: RenderCommand) -> TextRenderData {
    cmd.render_data->TextData_0
}

/// The command of a text holds the ends of its lines in rising order,
/// each once, and each is the index of a character of the text.
pub proof fn law_split_indices_rise(nodes: Seq<Node>, cmds: Seq<RenderCommand>, i: int)
    requires
        nodes_wf(nodes),
        rendered(nodes, cmds),
        0 <= i < cmds.len(),
        cmds[i].render_data is TextData,
    ensures
        nodes[i + 1].element.object_type is Text,
        rising(text_of(cmds[i]).split_indices@.map_values(|b: usize| b as int)),
        forall|j: int|
            0 <= j < text_of(cmds[i]).split_indices@.len() ==> (#[trigger] text_of(
                cmds[i],
            ).split_indices@[j]) < text_of(cmds[i]).text@.len(),
{
    assert(cmds[i + 1 - 1] == cmds[i]);
    assert(node_linked(nodes, i + 1));
    let widths = all_widths(nodes, cmds);
    let data = cmds[i].render_data->TextData_0;
    let splits = data.split_indices@.map_values(|b: usize| b as int);
    match nodes[i + 1].element.object_type {
        ObjectType::Text(t) => {
            let feeds = line_feeds(t.text@, t.text@.len() as int);
            let breaks = breaks_at(nodes, widths, i + 1);
            lemma_line_feeds(t.text@, t.text@.len() as int);
            lemma_wrap_breaks(
                t.text@,
                t.bitmap.cell_size.x as int,
                available_for(nodes, widths, i + 1),
                t.break_on_overflow,
            );
            lemma_merged_from(feeds, breaks, 0, 0);
            assert(splits == merged(feeds, breaks));
            assert forall|j: int| 0 <= j < data.split_indices@.len() implies (
            #[trigger] data.split_indices@[j]) < data.text@.len() by {
                assert(splits[j] == data.split_indices@[j] as int);
                assert(splits.contains(splits[j]));
            }
        },
        _ => {},
    }
}

/// Every node but the root is a child of one node only, and is listed
/// there once.
pub proof fn law_listed_once(nodes: Seq<Node>, i: int, p: int, j: int, q: int, k: int)
    requires
        nodes_wf(nodes),
        all_closed(nodes),
        0 <= p < nodes.len(),
        0 <= q < nodes.len(),
        is_kid(nodes, p, j, i),
        is_kid(nodes, q, k, i),
    ensures
        nodes[i].parent == Some(p as usize),
        p < i,
        p == q,
        j == k,
{
    assert(node_spans(nodes, p));
    assert(node_spans(nodes, q));
    assert(kid_spans(nodes, p, j));
    assert(kid_spans(nodes, q, k));
    if j < k {
        lemma_kids_rise(nodes, p, j, k);
    }
    if k < j {
        lemma_kids_rise(nodes, p, k, j);
    }
}

} // verus!
