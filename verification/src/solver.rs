use crate::bitmap::chars_of;
use crate::config::{Axis, LayoutConfig, SizingMode, SUBPIXELS};
use crate::distribute::{distribute, distribute_slack, lemma_distribute, total, Span};
use crate::element::ObjectType;
use crate::place::{gap_total, lemma_sum_monotone, place_children, sum, Frame, REACH, STRIDE};
use crate::tree::{
    all_closed, end_of, is_open, kid_spans, kids, node_linked, node_spans, nodes_wf, Node,
    MAX_NODES,
};
use crate::wrap::{lemma_wrap_breaks, wrap_breaks, wrap_text};
use vstd::prelude::*;

verus! {

/// The most that the gaps of an element add for each child, and the
/// largest fixed size, in subpixels.
pub const PER_GAP: i128 = 56_294_995_342_131_200;

/// The most that wrapping adds to the height of a text, in subpixels.
pub const PER_TEXT: i128 = 241_785_163_922_925_834_941_235_200;

/// The most that a node adds to its own size, in subpixels.
pub const PER_NODE: i128 = 241_785_164_148_105_816_309_760_000;

/// No size that the solver computes is larger than this many subpixels.
pub const LARGEST: i128 = 63_382_530_070_441_051_110_705_725_440_000;

/// The layout configuration of node `i`.
pub open spec fn config_of(nodes: Seq<Node>, i: int) -> LayoutConfig {
    nodes[i].element.layout
}

/// Whether node `i` lines its children up along `axis`.
pub open spec fn lines_up(nodes: Seq<Node>, axis: Axis, i: int) -> bool {
    config_of(nodes, i).layout_direction.runs_along(axis)
}

/// What node `i` needs along `axis` apart from its children: its least
/// size, its padding and, where it lines its children up along `axis`,
/// the gaps between them. In subpixels.
pub open spec fn own_size(nodes: Seq<Node>, axis: Axis, i: int) -> int {
    let c = config_of(nodes, i);
    (c.size_constraints.along(axis).min + c.padding.near(axis) + c.padding.far(axis) + if lines_up(
        nodes,
        axis,
        i,
    ) {
        gap_total(kids(nodes, i).len() as int, c.child_gap as int)
    } else {
        0
    }) * SUBPIXELS
}

/// The entry `i` of `extra`, and 0 where it has none.
pub open spec fn extra_at(extra: Seq<i128>, i: int) -> int {
    if 0 <= i < extra.len() {
        extra[i] as int
    } else {
        0
    }
}

/// The size that node `i` asks for along `axis` before any free space is
/// handed out: a fixed size as it is, and else what the node needs of its
/// own and for its children. `extra` holds what each node needs on top.
pub open spec fn fit(nodes: Seq<Node>, extra: Seq<i128>, axis: Axis, i: int) -> int
    decreases nodes.len() - i, kids(nodes, i).len() + 1,
{
    (match config_of(nodes, i).sizing.along(axis) {
        SizingMode::Fixed(n) => n * SUBPIXELS,
        _ => own_size(nodes, axis, i) + content(
            nodes,
            extra,
            axis,
            i,
            kids(nodes, i).len() as int,
        ),
    }) + extra_at(extra, i)
}

/// What the first `k` children of node `i` need along `axis`: the sum of
/// what they ask for where the node lines them up along `axis`, and the
/// largest of it where it does not.
pub open spec fn content(nodes: Seq<Node>, extra: Seq<i128>, axis: Axis, i: int, k: int) -> int
    decreases nodes.len() - i, k,
{
    if k <= 0 || k > kids(nodes, i).len() {
        0
    } else {
        let c = kids(nodes, i)[k - 1] as int;
        let asked = if i < c < nodes.len() {
            fit(nodes, extra, axis, c)
        } else {
            0
        };
        let rest = content(nodes, extra, axis, i, k - 1);
        if lines_up(nodes, axis, i) {
            rest + asked
        } else if asked > rest {
            asked
        } else {
            rest
        }
    }
}

/// What every node asks for along `axis`.
pub open spec fn fit_seq(nodes: Seq<Node>, extra: Seq<i128>, axis: Axis) -> Seq<i128> {
    Seq::new(nodes.len(), |i: int| fit(nodes, extra, axis, i) as i128)
}

/// The values of the children of node `p`, in their order.
pub open spec fn child_values(nodes: Seq<Node>, values: Seq<i128>, p: int) -> Seq<i128> {
    Seq::new(kids(nodes, p).len(), |k: int| values[kids(nodes, p)[k] as int])
}

/// Where the nodes below the first `k` children of node `p` end.
pub open spec fn child_end(nodes: Seq<Node>, p: int, k: int) -> int {
    if k <= 0 {
        p + 1
    } else {
        end_of(nodes, kids(nodes, p)[k - 1] as int)
    }
}

/// What node `i` asks for is not negative, and small for the number of
/// nodes below it.
pub open spec fn fit_bounded(nodes: Seq<Node>, fits: Seq<i128>, i: int) -> bool {
    0 <= fits[i] && fits[i] + PER_GAP <= PER_NODE * (end_of(nodes, i) - i)
}

/// The children of a closed node follow one another without a gap: the
/// nodes below the first `k` children end where child `k` starts.
pub proof fn lemma_child_chain(nodes: Seq<Node>, p: int, k: int)
    requires
        nodes_wf(nodes),
        all_closed(nodes),
        0 <= p < nodes.len(),
        0 <= k <= kids(nodes, p).len(),
    ensures
        p + 1 <= child_end(nodes, p, k) <= end_of(nodes, p) <= nodes.len(),
        k < kids(nodes, p).len() ==> child_end(nodes, p, k) == kids(nodes, p)[k],
        k == kids(nodes, p).len() ==> child_end(nodes, p, k) == end_of(nodes, p),
        k > 0 ==> kids(nodes, p)[k - 1] < child_end(nodes, p, k),
    decreases kids(nodes, p).len() - k,
{
    assert(node_spans(nodes, p));
    let ks = kids(nodes, p);
    if k > 0 {
        assert(kid_spans(nodes, p, k - 1));
        let c = ks[k - 1] as int;
        assert(node_spans(nodes, c));
        assert(!is_open(nodes, c));
    }
    if k < ks.len() {
        assert(kid_spans(nodes, p, k));
        let c = ks[k] as int;
        assert(node_spans(nodes, c));
        assert(!is_open(nodes, c));
        lemma_child_chain(nodes, p, k + 1);
    } else if k > 0 {
        assert(ks.last() == ks[k - 1]);
    }
}

/// What the first `k` children of a node ask for together is small for
/// the number of nodes below them.
pub proof fn lemma_kid_sum_bound(nodes: Seq<Node>, fits: Seq<i128>, p: int, k: int)
    requires
        nodes_wf(nodes),
        all_closed(nodes),
        fits.len() == nodes.len(),
        0 <= p < nodes.len(),
        0 <= k <= kids(nodes, p).len(),
        forall|c: int| p < c < nodes.len() ==> #[trigger] fit_bounded(nodes, fits, c),
    ensures
        0 <= sum(child_values(nodes, fits, p), k),
        sum(child_values(nodes, fits, p), k) + k * PER_GAP <= PER_NODE * (child_end(nodes, p, k) - p
            - 1),
    decreases k,
{
    if k > 0 {
        lemma_kid_sum_bound(nodes, fits, p, k - 1);
        lemma_child_chain(nodes, p, k - 1);
        lemma_child_chain(nodes, p, k);
        assert(node_spans(nodes, p));
        assert(kid_spans(nodes, p, k - 1));
        let c = kids(nodes, p)[k - 1] as int;
        assert(fit_bounded(nodes, fits, c));
        assert(child_values(nodes, fits, p)[k - 1] == fits[c]);
    }
}

/// Whether nothing in `extra` is negative or more than wrapping can add.
pub open spec fn extras_bounded(extra: Seq<i128>) -> bool {
    forall|i: int| 0 <= i < extra.len() ==> 0 <= #[trigger] extra[i] <= PER_TEXT
}

/// What the first `k` children of a node need is not negative and no
/// more than what they ask for together.
proof fn lemma_content_le_sum(
    nodes: Seq<Node>,
    extra: Seq<i128>,
    axis: Axis,
    fits: Seq<i128>,
    i: int,
    k: int,
)
    requires
        nodes_wf(nodes),
        fits.len() == nodes.len(),
        0 <= i < nodes.len(),
        0 <= k <= kids(nodes, i).len(),
        forall|c: int|
            i < c < nodes.len() ==> 0 <= #[trigger] fits[c] == fit(nodes, extra, axis, c),
    ensures
        0 <= content(nodes, extra, axis, i, k) <= sum(child_values(nodes, fits, i), k),
    decreases k,
{
    if k > 0 {
        lemma_content_le_sum(nodes, extra, axis, fits, i, k - 1);
        assert(node_spans(nodes, i));
        assert(kid_spans(nodes, i, k - 1));
        let c = kids(nodes, i)[k - 1] as int;
        assert(child_values(nodes, fits, i)[k - 1] == fits[c]);
    }
}

/// What a node asks for is not negative, small for the number of nodes
/// below it, at least its least size unless its size is fixed, and its
/// fixed size where it has one, with what it needs on top.
pub proof fn lemma_fit_range(nodes: Seq<Node>, extra: Seq<i128>, axis: Axis, i: int)
    requires
        nodes_wf(nodes),
        all_closed(nodes),
        extras_bounded(extra),
        0 <= i < nodes.len(),
    ensures
        fit_bounded(nodes, fit_seq(nodes, extra, axis), i),
        fit_seq(nodes, extra, axis)[i] == fit(nodes, extra, axis, i),
        0 <= fit(nodes, extra, axis, i) <= LARGEST,
        match config_of(nodes, i).sizing.along(axis) {
            SizingMode::Fixed(n) => fit(nodes, extra, axis, i) == n * SUBPIXELS + extra_at(
                extra,
                i,
            ),
            _ => fit(nodes, extra, axis, i) >= config_of(nodes, i).size_constraints.along(axis).min
                * SUBPIXELS,
        },
    decreases nodes.len() - i,
{
    let fits = fit_seq(nodes, extra, axis);
    let count = kids(nodes, i).len() as int;
    let config = config_of(nodes, i);
    assert forall|c: int| i < c < nodes.len() implies #[trigger] fit_bounded(nodes, fits, c) by {
        lemma_fit_range(nodes, extra, axis, c);
    }
    assert forall|c: int| i < c < nodes.len() implies 0 <= #[trigger] fits[c] == fit(
        nodes,
        extra,
        axis,
        c,
    ) by {
        lemma_fit_range(nodes, extra, axis, c);
    }
    assert(node_linked(nodes, i));
    assert(node_spans(nodes, i));
    lemma_kid_sum_bound(nodes, fits, i, count);
    lemma_content_le_sum(nodes, extra, axis, fits, i, count);
    lemma_child_chain(nodes, i, count);
    if count >= 1 {
        assert(0 <= (count - 1) * config.child_gap <= (count - 1) * 0x7fff_ffff)
            by (nonlinear_arith)
            requires
                count >= 1,
                0 <= config.child_gap <= 0x7fff_ffff,
        ;
    }
}

/// What every node asks for along `axis`.
pub fn fit_sizes(nodes: &Vec<Node>, extra: &Vec<i128>, axis: Axis) -> (fits: Vec<i128>)
    requires
        nodes_wf(nodes@),
        all_closed(nodes@),
        extra.len() == nodes.len(),
        forall|i: int| 0 <= i < extra.len() ==> 0 <= #[trigger] extra[i] <= PER_TEXT,
    ensures
        fits@ == fit_seq(nodes@, extra@, axis),
        forall|i: int| 0 <= i < nodes.len() ==> fits[i] == fit(nodes@, extra@, axis, i),
        forall|i: int| 0 <= i < nodes.len() ==> #[trigger] fit_bounded(nodes@, fits@, i),
{
    let n: usize = nodes.len();
    let mut fits: Vec<i128> = Vec::new();
    let mut j: usize = 0;
    while j < n
        invariant
            j <= n,
            fits.len() == j,
        decreases n - j,
    {
        fits.push(0);
        j = j + 1;
    }
    let mut i: usize = n;
    while i > 0
        invariant
            i <= n == nodes.len(),
            fits.len() == n,
            extra.len() == n,
            nodes_wf(nodes@),
            all_closed(nodes@),
            forall|i: int| 0 <= i < extra.len() ==> 0 <= #[trigger] extra[i] <= PER_TEXT,
            forall|c: int| i <= c < n ==> fits[c] == fit(nodes@, extra@, axis, c),
            forall|c: int| i <= c < n ==> #[trigger] fit_bounded(nodes@, fits@, c),
        decreases i,
    {
        i = i - 1;
        let node = &nodes[i];
        let config = node.element.layout;
        let count: usize = node.child_elements.len();
        let along: bool = config.layout_direction.is_along(axis);
        proof {
            assert(node_linked(nodes@, i as int));
            assert(node_spans(nodes@, i as int));
            lemma_kid_sum_bound(nodes@, fits@, i as int, count as int);
            lemma_child_chain(nodes@, i as int, count as int);
        }
        let base: i128 = match config.sizing.mode(axis) {
            SizingMode::Fixed(size) => (size as i128) * SUBPIXELS,
            _ => {
                let mut needed: i128 = 0;
                let mut k: usize = 0;
                while k < count
                    invariant
                        k <= count == kids(nodes@, i as int).len(),
                        i < n == nodes.len(),
                        fits.len() == n,
                        nodes_wf(nodes@),
                        all_closed(nodes@),
                        along == lines_up(nodes@, axis, i as int),
                        node.child_elements@ == kids(nodes@, i as int),
                        forall|c: int| i < c < n ==> fits[c] == fit(nodes@, extra@, axis, c),
                        forall|c: int| i < c < n ==> #[trigger] fit_bounded(nodes@, fits@, c),
                        needed == content(nodes@, extra@, axis, i as int, k as int),
                        0 <= needed <= sum(child_values(nodes@, fits@, i as int), k as int),
                    decreases count - k,
                {
                    proof {
                        assert(node_spans(nodes@, i as int));
                        assert(kid_spans(nodes@, i as int, k as int));
                        lemma_kid_sum_bound(nodes@, fits@, i as int, k as int + 1);
                        lemma_kid_sum_bound(nodes@, fits@, i as int, k as int);
                        lemma_child_chain(nodes@, i as int, k as int + 1);
                        let c = kids(nodes@, i as int)[k as int] as int;
                        assert(fit_bounded(nodes@, fits@, c));
                        assert(child_values(nodes@, fits@, i as int)[k as int] == fits[c]);
                    }
                    let asked: i128 = fits[node.child_elements[k]];
                    if along {
                        needed = needed + asked;
                    } else if asked > needed {
                        needed = asked;
                    }
                    k = k + 1;
                }
                let limit = config.size_constraints.limit(axis);
                let gaps: i128 = if along && count >= 1 {
                    proof {
                        assert(0 <= (count - 1) * config.child_gap <= (count - 1) * 0x7fff_ffff)
                            by (nonlinear_arith)
                            requires
                                count >= 1,
                                0 <= config.child_gap <= 0x7fff_ffff,
                        ;
                    }
                    (count as i128 - 1) * (config.child_gap as i128)
                } else {
                    0
                };
                let own: i128 = ((limit.min as i128) + (config.padding.before(axis) as i128) + (
                config.padding.after(axis) as i128) + gaps) * SUBPIXELS;
                own + needed
            },
        };
        let value: i128 = base + extra[i];
        let ghost before = fits@;
        fits[i] = value;
        proof {
            assert forall|c: int| i <= c < n implies fits[c] == fit(nodes@, extra@, axis, c) by {}
            assert forall|c: int| i <= c < n implies #[trigger] fit_bounded(nodes@, fits@, c) by {
                if c > i {
                    assert(fit_bounded(nodes@, before, c));
                }
            }
        }
    }
    proof {
        assert(fits@ =~= fit_seq(nodes@, extra@, axis));
    }
    fits
}

/// The children of node `p` as the free space is handed out among them:
/// each with what it asks for, its greatest size, and whether it grows.
pub open spec fn child_spans(nodes: Seq<Node>, fits: Seq<i128>, axis: Axis, p: int) -> Seq<Span> {
    Seq::new(
        kids(nodes, p).len(),
        |k: int|
            {
                let c = kids(nodes, p)[k] as int;
                Span {
                    size: fits[c],
                    cap: (config_of(nodes, c).size_constraints.along(axis).max * SUBPIXELS) as i128,
                    grows: config_of(nodes, c).sizing.along(axis) == SizingMode::Grow,
                }
            },
    )
}

/// The space between the two paddings of node `p`, if the node is
/// `extent` subpixels large.
pub open spec fn room(nodes: Seq<Node>, axis: Axis, p: int, extent: int) -> int {
    extent - (config_of(nodes, p).padding.near(axis) + config_of(nodes, p).padding.far(axis))
        * SUBPIXELS
}

/// The children with every one that grows made `space` subpixels large,
/// or 0 where `space` is negative.
pub open spec fn filled(s: Seq<Span>, space: int) -> Seq<Span> {
    Seq::new(
        s.len(),
        |k: int|
            if s[k].grows {
                Span {
                    size: (if space > 0 {
                        space
                    } else {
                        0
                    }) as i128,
                    cap: s[k].cap,
                    grows: true,
                }
            } else {
                s[k]
            },
    )
}

/// What the children of node `p` leave free along `axis` before any of
/// them grows, if the node is `extent` subpixels large.
pub open spec fn slack_of(
    nodes: Seq<Node>,
    fits: Seq<i128>,
    axis: Axis,
    p: int,
    extent: int,
) -> int {
    room(nodes, axis, p, extent) - gap_total(
        kids(nodes, p).len() as int,
        config_of(nodes, p).child_gap as int,
    ) * SUBPIXELS - total(child_spans(nodes, fits, axis, p), kids(nodes, p).len() as int)
}

/// The children of node `p` at their final sizes, if the node is `extent`
/// subpixels large. Where the node lines them up along `axis`, those that
/// grow share the space that is free; where it does not, each that grows
/// takes all the space between the paddings.
pub open spec fn settle(nodes: Seq<Node>, fits: Seq<i128>, axis: Axis, p: int, extent: int) -> Seq<
    Span,
> {
    if lines_up(nodes, axis, p) {
        distribute(
            child_spans(nodes, fits, axis, p),
            slack_of(nodes, fits, axis, p, extent),
            config_of(nodes, p).grow_elements_unevenly,
        )
    } else {
        filled(child_spans(nodes, fits, axis, p), room(nodes, axis, p, extent))
    }
}

/// The child `k` of node `p` has the size that the size of `p` gives it.
pub open spec fn kid_settled(
    nodes: Seq<Node>,
    fits: Seq<i128>,
    axis: Axis,
    sizes: Seq<i128>,
    p: int,
    k: int,
) -> bool {
    sizes[kids(nodes, p)[k] as int] == settle(nodes, fits, axis, p, sizes[p] as int)[k].size
}

/// `sizes` holds the final size of every node along `axis`: the root has
/// the size that it asks for, and every other node the size that the size
/// of its parent gives it.
pub open spec fn settled(nodes: Seq<Node>, fits: Seq<i128>, axis: Axis, sizes: Seq<i128>) -> bool {
    &&& sizes.len() == nodes.len()
    &&& sizes[0] == fits[0]
    &&& forall|p: int, k: int|
        0 <= p < nodes.len() && 0 <= k < kids(nodes, p).len() ==> #[trigger] kid_settled(
            nodes,
            fits,
            axis,
            sizes,
            p,
            k,
        )
}

/// The children of node `p` are together no larger than `LARGEST` where
/// the node lines them up along `axis`.
pub open spec fn row_bounded(nodes: Seq<Node>, axis: Axis, sizes: Seq<i128>, p: int) -> bool {
    lines_up(nodes, axis, p) ==> sum(child_values(nodes, sizes, p), kids(nodes, p).len() as int)
        <= LARGEST
}

/// No size is negative or larger than `LARGEST`, and no row of children
/// is longer than that.
pub open spec fn sizes_bounded(nodes: Seq<Node>, axis: Axis, sizes: Seq<i128>) -> bool {
    &&& sizes.len() == nodes.len()
    &&& forall|i: int| 0 <= i < sizes.len() ==> 0 <= #[trigger] sizes[i] <= LARGEST
    &&& forall|p: int| 0 <= p < nodes.len() ==> #[trigger] row_bounded(nodes, axis, sizes, p)
}

/// The first `k` children of a node have at least `k` nodes below them.
pub proof fn lemma_kid_count(nodes: Seq<Node>, p: int, k: int)
    requires
        nodes_wf(nodes),
        all_closed(nodes),
        0 <= p < nodes.len(),
        0 <= k <= kids(nodes, p).len(),
    ensures
        p + 1 + k <= child_end(nodes, p, k) <= nodes.len(),
        k <= crate::tree::MAX_NODES,
    decreases k,
{
    lemma_child_chain(nodes, p, k);
    if k > 0 {
        lemma_kid_count(nodes, p, k - 1);
        lemma_child_chain(nodes, p, k - 1);
    }
}

/// Children come in rising order.
pub proof fn lemma_kids_rise(nodes: Seq<Node>, p: int, j: int, k: int)
    requires
        nodes_wf(nodes),
        all_closed(nodes),
        0 <= p < nodes.len(),
        0 <= j < k < kids(nodes, p).len(),
    ensures
        kids(nodes, p)[j] < kids(nodes, p)[k],
    decreases k - j,
{
    lemma_child_chain(nodes, p, j + 1);
    if j + 1 < k {
        lemma_kids_rise(nodes, p, j + 1, k);
    }
}

/// Spans whose sizes are the entries of `values` add up to what `values`
/// adds up to.
pub proof fn lemma_total_is_sum(spans: Seq<Span>, values: Seq<i128>, n: int)
    requires
        0 <= n <= spans.len(),
        n <= values.len(),
        forall|k: int| 0 <= k < n ==> spans[k].size == values[k],
    ensures
        total(spans, n) == sum(values, n),
    decreases n,
{
    if n > 0 {
        lemma_total_is_sum(spans, values, n - 1);
    }
}

/// Of sizes that are not negative, none is larger than their sum.
pub proof fn lemma_part_of_sum(values: Seq<i128>, k: int)
    requires
        0 <= k < values.len(),
        forall|j: int| 0 <= j < values.len() ==> values[j] >= 0,
    ensures
        values[k] <= sum(values, values.len() as int),
{
    lemma_sum_monotone(values, k, k);
    lemma_sum_monotone(values, k + 1, values.len() as int);
}

/// The final size of every node along `axis`, from what the nodes ask for.
pub fn size_along_axis(nodes: &Vec<Node>, fits: &Vec<i128>, axis: Axis) -> (sizes: Vec<i128>)
    requires
        nodes_wf(nodes@),
        all_closed(nodes@),
        fits.len() == nodes.len(),
        forall|i: int| 0 <= i < nodes.len() ==> #[trigger] fit_bounded(nodes@, fits@, i),
    ensures
        settled(nodes@, fits@, axis, sizes@),
        sizes_bounded(nodes@, axis, sizes@),
{
    let n: usize = nodes.len();
    let mut sizes: Vec<i128> = fits.clone();
    proof {
        assert(sizes@ =~= fits@);
        assert forall|i: int| 0 <= i < n implies 0 <= #[trigger] sizes[i] <= LARGEST by {
            assert(fit_bounded(nodes@, fits@, i));
            assert(node_spans(nodes@, i));
        }
    }
    let mut p: usize = 0;
    while p < n
        invariant
            p <= n == nodes.len(),
            fits.len() == n,
            sizes.len() == n,
            nodes_wf(nodes@),
            all_closed(nodes@),
            forall|i: int| 0 <= i < nodes.len() ==> #[trigger] fit_bounded(nodes@, fits@, i),
            sizes[0] == fits[0],
            forall|i: int| 0 <= i < n ==> 0 <= #[trigger] sizes[i] <= LARGEST,
            forall|q: int, k: int|
                0 <= q < p && 0 <= k < kids(nodes@, q).len() ==> #[trigger] kid_settled(
                    nodes@,
                    fits@,
                    axis,
                    sizes@,
                    q,
                    k,
                ),
            forall|q: int| 0 <= q < p ==> #[trigger] row_bounded(nodes@, axis, sizes@, q),
        decreases n - p,
    {
        let node = &nodes[p];
        let config = node.element.layout;
        let count: usize = node.child_elements.len();
        let along: bool = config.layout_direction.is_along(axis);
        let ghost wanted = child_spans(nodes@, fits@, axis, p as int);
        proof {
            assert(node_spans(nodes@, p as int));
            assert(node_linked(nodes@, p as int));
        }
        // The children as they ask to be.
        let mut spans: Vec<Span> = Vec::new();
        let mut asked: i128 = 0;
        let mut k: usize = 0;
        while k < count
            invariant
                k <= count == kids(nodes@, p as int).len(),
                p < n == nodes.len(),
                fits.len() == n,
                nodes_wf(nodes@),
                all_closed(nodes@),
                forall|i: int| 0 <= i < nodes.len() ==> #[trigger] fit_bounded(nodes@, fits@, i),
                node.child_elements@ == kids(nodes@, p as int),
                wanted == child_spans(nodes@, fits@, axis, p as int),
                spans.len() == k,
                forall|j: int| 0 <= j < k ==> spans[j] == wanted[j],
                asked == sum(child_values(nodes@, fits@, p as int), k as int),
            decreases count - k,
        {
            proof {
                assert(node_spans(nodes@, p as int));
                assert(kid_spans(nodes@, p as int, k as int));
                lemma_kid_sum_bound(nodes@, fits@, p as int, k as int + 1);
                lemma_kid_sum_bound(nodes@, fits@, p as int, k as int);
                lemma_child_chain(nodes@, p as int, k as int + 1);
                let c = kids(nodes@, p as int)[k as int] as int;
                assert(node_linked(nodes@, c));
                assert(child_values(nodes@, fits@, p as int)[k as int] == fits[c]);
            }
            let c: usize = node.child_elements[k];
            let child = nodes[c].element.layout;
            let grows: bool = match child.sizing.mode(axis) {
                SizingMode::Grow => true,
                _ => false,
            };
            let cap: i128 = (child.size_constraints.limit(axis).max as i128) * SUBPIXELS;
            spans.push(Span { size: fits[c], cap, grows });
            asked = asked + fits[c];
            k = k + 1;
        }
        proof {
            assert(spans@ =~= wanted);
            lemma_kid_count(nodes@, p as int, count as int);
            lemma_total_is_sum(wanted, child_values(nodes@, fits@, p as int), count as int);
            lemma_kid_sum_bound(nodes@, fits@, p as int, count as int);
            lemma_child_chain(nodes@, p as int, count as int);
        }
        let extent: i128 = sizes[p];
        let interior: i128 = extent - ((config.padding.before(axis) as i128) + (
        config.padding.after(axis) as i128)) * SUBPIXELS;
        if along {
            let gaps: i128 = if count >= 1 {
                proof {
                    assert(0 <= (count - 1) * config.child_gap <= 0x4_0000 * 0x7fff_ffff)
                        by (nonlinear_arith)
                        requires
                            1 <= count <= 0x4_0000,
                            0 <= config.child_gap <= 0x7fff_ffff,
                    ;
                }
                (count as i128 - 1) * (config.child_gap as i128)
            } else {
                0
            };
            let slack: i128 = interior - gaps * SUBPIXELS - asked;
            proof {
                assert forall|i: int| 0 <= i < spans.len() implies spans[i].size >= 0 by {
                    assert(kid_spans(nodes@, p as int, i));
                    assert(fit_bounded(nodes@, fits@, kids(nodes@, p as int)[i] as int));
                }
                lemma_distribute(wanted, slack as int, config.grow_elements_unevenly);
            }
            distribute_slack(&mut spans, slack, config.grow_elements_unevenly);
        } else {
            let space: i128 = if interior > 0 {
                interior
            } else {
                0
            };
            let mut f: usize = 0;
            while f < count
                invariant
                    f <= count == wanted.len(),
                    spans.len() == count,
                    forall|j: int|
                        0 <= j < f ==> spans[j] == filled(wanted, interior as int)[j],
                    forall|j: int| f <= j < count ==> spans[j] == wanted[j],
                    space == if interior > 0 {
                        interior
                    } else {
                        0
                    },
                decreases count - f,
            {
                if spans[f].grows {
                    spans[f].size = space;
                }
                f = f + 1;
            }
            proof {
                assert(spans@ =~= filled(wanted, interior as int));
            }
        }
        assert(spans@ == settle(nodes@, fits@, axis, p as int, sizes[p as int] as int));
        let ghost given = spans@;
        // No child is negative or too large, and in a row they are not
        // too large together.
        proof {
            assert forall|j: int| 0 <= j < count implies 0 <= given[j].size && (!wanted[j].grows
                ==> given[j].size == wanted[j].size) by {
                assert(kid_spans(nodes@, p as int, j));
                assert(fit_bounded(nodes@, fits@, kids(nodes@, p as int)[j] as int));
            }
        }
        let ghost before = sizes@;
        let ghost ks = kids(nodes@, p as int);
        proof {
            assert forall|j: int| 0 <= j < count implies p < #[trigger] ks[j] < n
                && nodes@[ks[j] as int].parent == Some(p) by {
                assert(kid_spans(nodes@, p as int, j));
            }
            assert forall|j: int, l: int| 0 <= j < l < count implies ks[j] != ks[l] by {
                lemma_kids_rise(nodes@, p as int, j, l);
            }
        }
        let mut w: usize = 0;
        while w < count
            invariant
                w <= count == ks.len(),
                p < n,
                sizes.len() == n,
                spans.len() == count,
                spans@ == given,
                before.len() == n,
                node.child_elements@ == ks,
                forall|j: int|
                    0 <= j < count ==> p < #[trigger] ks[j] < n && nodes@[ks[j] as int].parent
                        == Some(p),
                forall|j: int, l: int| 0 <= j < l < count ==> ks[j] != ks[l],
                forall|j: int| 0 <= j < w ==> sizes[ks[j] as int] == given[j].size,
                forall|i: int|
                    0 <= i < n && nodes@[i].parent != Some(p) ==> sizes[i] == before[i],
            decreases count - w,
        {
            let c: usize = node.child_elements[w];
            sizes[c] = spans[w].size;
            w = w + 1;
        }
        proof {
            assert(sizes[p as int] == before[p as int]) by {
                assert(node_linked(nodes@, p as int));
            }
            assert(sizes[0] == fits[0]) by {
                assert(node_linked(nodes@, 0));
            }
            assert forall|q: int, k: int|
                0 <= q < p + 1 && 0 <= k < kids(nodes@, q).len() implies #[trigger] kid_settled(
                nodes@,
                fits@,
                axis,
                sizes@,
                q,
                k,
            ) by {
                assert(node_spans(nodes@, q));
                assert(kid_spans(nodes@, q, k));
                assert(node_linked(nodes@, q));
                if q < p {
                    assert(kid_settled(nodes@, fits@, axis, before, q, k));
                }
            }
            lemma_settled_bounds(nodes@, fits@, axis, before, sizes@, p as int);
            assert forall|q: int| 0 <= q < p + 1 implies #[trigger] row_bounded(
                nodes@,
                axis,
                sizes@,
                q,
            ) by {
                if q < p {
                    assert(row_bounded(nodes@, axis, before, q));
                    assert(child_values(nodes@, sizes@, q) =~= child_values(nodes@, before, q)) by {
                        assert(node_spans(nodes@, q));
                        assert forall|k: int| 0 <= k < kids(nodes@, q).len() implies sizes[kids(
                            nodes@,
                            q,
                        )[k] as int] == before[kids(nodes@, q)[k] as int] by {
                            assert(kid_spans(nodes@, q, k));
                        }
                    }
                }
            }
        }
        p = p + 1;
    }
    sizes
}

/// Once the children of node `p` have the sizes that its size gives them,
/// none of them is negative or larger than `LARGEST`, and in a row they
/// are not larger than that together.
proof fn lemma_settled_bounds(
    nodes: Seq<Node>,
    fits: Seq<i128>,
    axis: Axis,
    before: Seq<i128>,
    sizes: Seq<i128>,
    p: int,
)
    requires
        nodes_wf(nodes),
        all_closed(nodes),
        fits.len() == nodes.len(),
        before.len() == nodes.len(),
        sizes.len() == nodes.len(),
        0 <= p < nodes.len(),
        forall|i: int| 0 <= i < nodes.len() ==> #[trigger] fit_bounded(nodes, fits, i),
        forall|i: int| 0 <= i < nodes.len() ==> 0 <= #[trigger] before[i] <= LARGEST,
        forall|i: int| 0 <= i < nodes.len() && nodes[i].parent != Some(p as usize) ==> sizes[i]
            == before[i],
        sizes[p] == before[p],
        forall|k: int|
            0 <= k < kids(nodes, p).len() ==> #[trigger] kid_settled(
                nodes,
                fits,
                axis,
                sizes,
                p,
                k,
            ),
    ensures
        forall|i: int| 0 <= i < nodes.len() ==> 0 <= #[trigger] sizes[i] <= LARGEST,
        row_bounded(nodes, axis, sizes, p),
{
    let ks = kids(nodes, p);
    let count = ks.len() as int;
    let wanted = child_spans(nodes, fits, axis, p);
    let asked = child_values(nodes, fits, p);
    let given = settle(nodes, fits, axis, p, sizes[p] as int);
    let got = child_values(nodes, sizes, p);
    let config = config_of(nodes, p);
    assert(node_spans(nodes, p));
    assert(node_linked(nodes, p));
    lemma_kid_sum_bound(nodes, fits, p, count);
    lemma_child_chain(nodes, p, count);
    lemma_total_is_sum(wanted, asked, count);
    assert forall|k: int| 0 <= k < count implies wanted[k].size >= 0 by {
        assert(kid_spans(nodes, p, k));
        assert(fit_bounded(nodes, fits, ks[k] as int));
    }
    assert forall|k: int| 0 <= k < count implies got[k] == given[k].size by {
        assert(kid_settled(nodes, fits, axis, sizes, p, k));
    }
    if lines_up(nodes, axis, p) {
        let slack = slack_of(nodes, fits, axis, p, sizes[p] as int);
        lemma_distribute(wanted, slack, config.grow_elements_unevenly);
        lemma_total_is_sum(given, got, count);
        assert(0 <= gap_total(count, config.child_gap as int)) by (nonlinear_arith)
            requires
                config.child_gap >= 0,
                count >= 0,
                gap_total(count, config.child_gap as int) == if count >= 1 {
                    (count - 1) * config.child_gap
                } else {
                    0
                },
        ;
        assert(sum(got, count) <= LARGEST);
        assert forall|k: int| 0 <= k < count implies 0 <= #[trigger] got[k] <= LARGEST by {
            assert(given[k].size >= wanted[k].size);
            lemma_part_of_sum(got, k);
        }
    } else {
        assert forall|k: int| 0 <= k < count implies 0 <= #[trigger] got[k] <= LARGEST by {
            assert(kid_spans(nodes, p, k));
            assert(fit_bounded(nodes, fits, ks[k] as int));
            assert(node_spans(nodes, ks[k] as int));
        }
    }
    assert forall|i: int| 0 <= i < nodes.len() implies 0 <= #[trigger] sizes[i] <= LARGEST by {
        if nodes[i].parent == Some(p as usize) {
            assert(node_linked(nodes, i));
            let k = choose|k: int| #[trigger] crate::tree::is_kid(nodes, p, k, i);
            assert(got[k] == sizes[i]);
        }
    }
}

/// What node `p` offers the children it places along `axis`, if it
/// starts at `at[p]` and is `sizes[p]` large.
pub open spec fn frame_of(
    nodes: Seq<Node>,
    axis: Axis,
    sizes: Seq<i128>,
    at: Seq<i128>,
    p: int,
) -> Frame {
    let c = config_of(nodes, p);
    Frame {
        origin: at[p],
        extent: sizes[p],
        near: (c.padding.near(axis) * SUBPIXELS) as i128,
        far: (c.padding.far(axis) * SUBPIXELS) as i128,
        gap: (c.child_gap * SUBPIXELS) as i128,
        along: lines_up(nodes, axis, p),
        anchor: c.child_alignment.along(axis),
    }
}

/// The child `k` of node `p` starts where `p` places it.
pub open spec fn kid_placed(
    nodes: Seq<Node>,
    axis: Axis,
    sizes: Seq<i128>,
    at: Seq<i128>,
    p: int,
    k: int,
) -> bool {
    at[kids(nodes, p)[k] as int] == frame_of(nodes, axis, sizes, at, p).position(
        child_values(nodes, sizes, p),
        k,
    )
}

/// `at` holds where every node starts along `axis`: the root at 0, and
/// every other node where its parent places it.
pub open spec fn placed(nodes: Seq<Node>, axis: Axis, sizes: Seq<i128>, at: Seq<i128>) -> bool {
    &&& at.len() == nodes.len()
    &&& at[0] == 0
    &&& forall|p: int, k: int|
        0 <= p < nodes.len() && 0 <= k < kids(nodes, p).len() ==> #[trigger] kid_placed(
            nodes,
            axis,
            sizes,
            at,
            p,
            k,
        )
}

/// The values of the children of node `p`, one by one.
pub fn gather(nodes: &Vec<Node>, values: &Vec<i128>, p: usize) -> (row: Vec<i128>)
    requires
        nodes_wf(nodes@),
        values.len() == nodes.len(),
        p < nodes.len(),
    ensures
        row@ == child_values(nodes@, values@, p as int),
{
    let node = &nodes[p];
    let count: usize = node.child_elements.len();
    let mut row: Vec<i128> = Vec::new();
    let mut k: usize = 0;
    while k < count
        invariant
            k <= count == kids(nodes@, p as int).len(),
            p < nodes.len(),
            nodes_wf(nodes@),
            values.len() == nodes.len(),
            node.child_elements@ == kids(nodes@, p as int),
            row.len() == k,
            forall|j: int| 0 <= j < k ==> row[j] == child_values(nodes@, values@, p as int)[j],
        decreases count - k,
    {
        proof {
            assert(node_spans(nodes@, p as int));
            assert(kid_spans(nodes@, p as int, k as int));
        }
        row.push(values[node.child_elements[k]]);
        k = k + 1;
    }
    proof {
        assert(row@ =~= child_values(nodes@, values@, p as int));
    }
    row
}

/// Where every node starts along `axis`, from the final sizes.
pub fn position_along_axis(nodes: &Vec<Node>, sizes: &Vec<i128>, axis: Axis) -> (at: Vec<i128>)
    requires
        nodes_wf(nodes@),
        all_closed(nodes@),
        sizes_bounded(nodes@, axis, sizes@),
    ensures
        placed(nodes@, axis, sizes@, at@),
{
    let n: usize = nodes.len();
    let mut at: Vec<i128> = Vec::new();
    let mut j: usize = 0;
    while j < n
        invariant
            j <= n,
            at.len() == j,
            forall|i: int| 0 <= i < j ==> at[i] == 0,
        decreases n - j,
    {
        at.push(0);
        j = j + 1;
    }
    let mut p: usize = 0;
    while p < n
        invariant
            p <= n == nodes.len(),
            at.len() == n,
            nodes_wf(nodes@),
            all_closed(nodes@),
            sizes_bounded(nodes@, axis, sizes@),
            at[0] == 0,
            forall|i: int| 0 <= i < n ==> -STRIDE * i <= #[trigger] at[i] <= STRIDE * i,
            forall|q: int, k: int|
                0 <= q < p && 0 <= k < kids(nodes@, q).len() ==> #[trigger] kid_placed(
                    nodes@,
                    axis,
                    sizes@,
                    at@,
                    q,
                    k,
                ),
        decreases n - p,
    {
        let node = &nodes[p];
        let config = node.element.layout;
        let count: usize = node.child_elements.len();
        let row: Vec<i128> = gather(nodes, sizes, p);
        let frame = Frame {
            origin: at[p],
            extent: sizes[p],
            near: (config.padding.before(axis) as i128) * SUBPIXELS,
            far: (config.padding.after(axis) as i128) * SUBPIXELS,
            gap: (config.child_gap as i128) * SUBPIXELS,
            along: config.layout_direction.is_along(axis),
            anchor: config.child_alignment.anchor(axis),
        };
        let ghost ks = kids(nodes@, p as int);
        proof {
            assert(node_spans(nodes@, p as int));
            assert(node_linked(nodes@, p as int));
            assert(frame == frame_of(nodes@, axis, sizes@, at@, p as int));
            lemma_kid_count(nodes@, p as int, count as int);
            assert(row_bounded(nodes@, axis, sizes@, p as int));
            assert(frame.gap * count <= REACH) by (nonlinear_arith)
                requires
                    0 <= frame.gap <= 0x7fff_ffff * 26_214_400,
                    0 <= count <= 0x4_0000,
            ;
            assert forall|k: int| 0 <= k < row.len() implies 0 <= #[trigger] row[k] <= REACH by {
                assert(kid_spans(nodes@, p as int, k));
                assert(0 <= sizes[ks[k] as int] <= LARGEST);
            }
            assert(frame.fits(row@));
            assert forall|j: int| 0 <= j < count implies p < #[trigger] ks[j] < n
                && nodes@[ks[j] as int].parent == Some(p) by {
                assert(kid_spans(nodes@, p as int, j));
            }
            assert forall|j: int, l: int| 0 <= j < l < count implies ks[j] != ks[l] by {
                lemma_kids_rise(nodes@, p as int, j, l);
            }
        }
        let spots: Vec<i128> = place_children(&frame, &row);
        let ghost before = at@;
        let mut w: usize = 0;
        while w < count
            invariant
                w <= count == ks.len(),
                p < n,
                at.len() == n,
                spots.len() == count,
                before.len() == n,
                node.child_elements@ == ks,
                forall|j: int|
                    0 <= j < count ==> p < #[trigger] ks[j] < n && nodes@[ks[j] as int].parent
                        == Some(p),
                forall|j: int, l: int| 0 <= j < l < count ==> ks[j] != ks[l],
                forall|j: int| 0 <= j < w ==> at[ks[j] as int] == spots[j],
                forall|i: int| 0 <= i < n && nodes@[i].parent != Some(p) ==> at[i] == before[i],
                n == nodes.len(),
                forall|k: int|
                    0 <= k < count ==> before[p as int] - STRIDE <= #[trigger] spots[k]
                        <= before[p as int] + STRIDE,
                forall|i: int|
                    0 <= i < n && nodes@[i].parent == Some(p) ==> #[trigger] at[i] == before[i] || (
                    before[p as int] - STRIDE <= at[i] <= before[p as int] + STRIDE),
            decreases count - w,
        {
            let c: usize = node.child_elements[w];
            at[c] = spots[w];
            w = w + 1;
        }
        proof {
            assert(at[p as int] == before[p as int]);
            assert(at[0] == 0) by {
                assert(node_linked(nodes@, 0));
            }
            assert(frame == frame_of(nodes@, axis, sizes@, at@, p as int));
            assert forall|i: int| 0 <= i < n implies -STRIDE * i <= #[trigger] at[i] <= STRIDE
                * i by {
                assert(-STRIDE * i <= before[i] <= STRIDE * i);
                assert(-STRIDE * p <= before[p as int] <= STRIDE * p);
                if nodes@[i].parent == Some(p) {
                    assert(node_linked(nodes@, i));
                }
            }
            assert forall|q: int, k: int|
                0 <= q < p + 1 && 0 <= k < kids(nodes@, q).len() implies #[trigger] kid_placed(
                nodes@,
                axis,
                sizes@,
                at@,
                q,
                k,
            ) by {
                assert(node_spans(nodes@, q));
                assert(kid_spans(nodes@, q, k));
                assert(node_linked(nodes@, q));
                if q < p {
                    assert(kid_placed(nodes@, axis, sizes@, before, q, k));
                    assert(at[q] == before[q]);
                    assert(at[kids(nodes@, q)[k] as int] == before[kids(nodes@, q)[k] as int]);
                    assert(frame_of(nodes@, axis, sizes@, at@, q) == frame_of(
                        nodes@,
                        axis,
                        sizes@,
                        before,
                        q,
                    ));
                } else {
                    assert(at[ks[k] as int] == spots[k]);
                    assert(spots[k] == frame.position(row@, k));
                }
            }
        }
        p = p + 1;
    }
    at
}

/// Nothing on top for any of `n` nodes.
pub open spec fn no_extra(n: nat) -> Seq<i128> {
    Seq::new(n, |i: int| 0i128)
}

/// The width that the text of node `i` may take before it is wrapped: what
/// its parent has between its paddings, less the gaps between the
/// children of the parent and the widths of the other children.
pub open spec fn available_for(nodes: Seq<Node>, widths: Seq<i128>, i: int) -> int {
    let p = nodes[i].parent->0 as int;
    room(nodes, Axis::X, p, widths[p] as int) - gap_total(
        kids(nodes, p).len() as int,
        config_of(nodes, p).child_gap as int,
    ) * SUBPIXELS - (sum(child_values(nodes, widths, p), kids(nodes, p).len() as int) - widths[i])
}

/// The indices at which the solver breaks the text of node `i`. A node
/// that is no text has none, and neither has the root.
pub open spec fn breaks_at(nodes: Seq<Node>, widths: Seq<i128>, i: int) -> Seq<int> {
    match nodes[i].element.object_type {
        ObjectType::Text(t) => if i > 0 {
            wrap_breaks(
                t.text@,
                t.bitmap.cell_size.x as int,
                available_for(nodes, widths, i),
                t.break_on_overflow,
            )
        } else {
            Seq::empty()
        },
        _ => Seq::empty(),
    }
}

/// The height of one line of node `i`, in pixels; 0 if it is no text.
pub open spec fn line_height_at(nodes: Seq<Node>, i: int) -> int {
    match nodes[i].element.object_type {
        ObjectType::Text(t) => t.font_size as int,
        _ => 0,
    }
}

/// What wrapping adds to the height of each node: one line for each
/// break.
pub open spec fn extra_heights(nodes: Seq<Node>, widths: Seq<i128>) -> Seq<i128> {
    Seq::new(
        nodes.len(),
        |i: int|
            (breaks_at(nodes, widths, i).len() * line_height_at(nodes, i) * SUBPIXELS) as i128,
    )
}

/// What the lines that wrapping adds to a text are high together is not
/// negative and not more than `PER_TEXT`.
pub proof fn lemma_line_product(count: int, height: int)
    requires
        0 <= count <= 0x7fff_ffff,
        0 <= height <= 0xffff_ffff,
    ensures
        0 <= count * height <= 0x7fff_ffff * 0xffff_ffff,
        0 <= count * height * SUBPIXELS <= PER_TEXT,
{
    assert(0 <= count * height <= 0x7fff_ffff * 0xffff_ffff) by (nonlinear_arith)
        requires
            0 <= count <= 0x7fff_ffff,
            0 <= height <= 0xffff_ffff,
    ;
}

/// The entries of a row, added up.
pub fn sum_row(row: &Vec<i128>) -> (s: i128)
    requires
        row.len() <= MAX_NODES,
        forall|k: int| 0 <= k < row.len() ==> 0 <= #[trigger] row[k] <= LARGEST,
    ensures
        s == sum(row@, row.len() as int),
        0 <= s <= LARGEST * row.len(),
{
    let mut s: i128 = 0;
    let mut k: usize = 0;
    while k < row.len()
        invariant
            k <= row.len() <= MAX_NODES,
            forall|k: int| 0 <= k < row.len() ==> 0 <= #[trigger] row[k] <= LARGEST,
            s == sum(row@, k as int),
            0 <= s <= LARGEST * k,
        decreases row.len() - k,
    {
        s = s + row[k];
        k = k + 1;
    }
    s
}

/// Where the solver breaks the text of each node, and what that adds to
/// the height of the node.
pub fn wrap_all(nodes: &Vec<Node>, widths: &Vec<i128>) -> (r: (Vec<Vec<usize>>, Vec<i128>))
    requires
        nodes_wf(nodes@),
        all_closed(nodes@),
        sizes_bounded(nodes@, Axis::X, widths@),
    ensures
        r.0.len() == nodes.len(),
        forall|i: int|
            0 <= i < nodes.len() ==> (#[trigger] r.0[i])@.map_values(|b: usize| b as int)
                == breaks_at(nodes@, widths@, i),
        r.1@ == extra_heights(nodes@, widths@),
        forall|i: int| 0 <= i < nodes.len() ==> 0 <= #[trigger] r.1[i] <= PER_TEXT,
{
    let n: usize = nodes.len();
    // The widths of the children of each node, added up.
    let mut rows: Vec<i128> = Vec::new();
    let mut p: usize = 0;
    while p < n
        invariant
            p <= n == nodes.len(),
            nodes_wf(nodes@),
            all_closed(nodes@),
            sizes_bounded(nodes@, Axis::X, widths@),
            rows.len() == p,
            forall|q: int|
                0 <= q < p ==> #[trigger] rows[q] == sum(
                    child_values(nodes@, widths@, q),
                    kids(nodes@, q).len() as int,
                ) && 0 <= rows[q] <= LARGEST * MAX_NODES,
        decreases n - p,
    {
        let row: Vec<i128> = gather(nodes, widths, p);
        proof {
            assert(node_spans(nodes@, p as int));
            lemma_kid_count(nodes@, p as int, row.len() as int);
            assert forall|k: int| 0 <= k < row.len() implies 0 <= #[trigger] row[k] <= LARGEST by {
                assert(kid_spans(nodes@, p as int, k));
                assert(0 <= widths[kids(nodes@, p as int)[k] as int] <= LARGEST);
            }
        }
        let s: i128 = sum_row(&row);
        rows.push(s);
        p = p + 1;
    }
    let mut breaks: Vec<Vec<usize>> = Vec::new();
    let mut extra: Vec<i128> = Vec::new();
    let mut i: usize = 0;
    while i < n
        invariant
            i <= n == nodes.len(),
            nodes_wf(nodes@),
            all_closed(nodes@),
            sizes_bounded(nodes@, Axis::X, widths@),
            rows.len() == n,
            forall|q: int|
                0 <= q < n ==> #[trigger] rows[q] == sum(
                    child_values(nodes@, widths@, q),
                    kids(nodes@, q).len() as int,
                ) && 0 <= rows[q] <= LARGEST * MAX_NODES,
            breaks.len() == i,
            extra.len() == i,
            forall|j: int|
                0 <= j < i ==> (#[trigger] breaks[j])@.map_values(|b: usize| b as int) == breaks_at(
                    nodes@,
                    widths@,
                    j,
                ),
            forall|j: int| 0 <= j < i ==> extra[j] == extra_heights(nodes@, widths@)[j],
            forall|j: int| 0 <= j < i ==> 0 <= #[trigger] extra[j] <= PER_TEXT,
        decreases n - i,
    {
        let node = &nodes[i];
        proof {
            assert(node_linked(nodes@, i as int));
        }
        let mut found: Vec<usize> = Vec::new();
        match &node.element.object_type {
            ObjectType::Text(t) => {
                if i > 0 {
                    let p: usize = node.parent.unwrap();
                    let config = nodes[p].element.layout;
                    let count: usize = nodes[p].child_elements.len();
                    proof {
                        assert(node_linked(nodes@, p as int));
                        lemma_kid_count(nodes@, p as int, count as int);
                        assert(0 <= widths[p as int] <= LARGEST);
                        assert(0 <= widths[i as int] <= LARGEST);
                    }
                    let gaps: i128 = if count >= 1 {
                        proof {
                            assert(0 <= (count - 1) * config.child_gap <= 0x4_0000 * 0x7fff_ffff)
                                by (nonlinear_arith)
                                requires
                                    1 <= count <= 0x4_0000,
                                    0 <= config.child_gap <= 0x7fff_ffff,
                            ;
                        }
                        (count as i128 - 1) * (config.child_gap as i128)
                    } else {
                        0
                    };
                    let interior: i128 = widths[p] - ((config.padding.before(Axis::X) as i128) + (
                    config.padding.after(Axis::X) as i128)) * SUBPIXELS;
                    let available: i128 = interior - gaps * SUBPIXELS - (rows[p] - widths[i]);
                    assert(available == available_for(nodes@, widths@, i as int));
                    let chars: Vec<char> = chars_of(t.text.as_str());
                    found = wrap_text(&chars, t.bitmap.cell_size.x, available, t.break_on_overflow);
                    proof {
                        lemma_wrap_breaks(
                            chars@,
                            t.bitmap.cell_size.x as int,
                            available as int,
                            t.break_on_overflow,
                        );
                        assert(found@.map_values(|b: usize| b as int) =~= breaks_at(
                            nodes@,
                            widths@,
                            i as int,
                        ));
                        assert(found.len() <= 0x7fff_ffff);
                    }
                }
            },
            _ => {},
        }
        let line: u32 = match &node.element.object_type {
            ObjectType::Text(t) => t.font_size,
            _ => 0,
        };
        proof {
            lemma_line_product(found.len() as int, line as int);
        }
        let added: i128 = (found.len() as i128) * (line as i128) * SUBPIXELS;
        proof {
            let count = breaks_at(nodes@, widths@, i as int).len() as int;
            let height = line_height_at(nodes@, i as int);
            assert(found@.map_values(|b: usize| b as int) =~= breaks_at(nodes@, widths@, i as int));
            assert(count == found.len());
            assert(height == line);
            assert(added == count * height * SUBPIXELS) by (nonlinear_arith)
                requires
                    added == (found.len() * line) * SUBPIXELS,
                    count == found.len(),
                    height == line,
            ;
            lemma_line_product(count, height);
            assert(extra_heights(nodes@, widths@)[i as int] == (count * height
                * SUBPIXELS) as i128);
            assert(added == extra_heights(nodes@, widths@)[i as int]);
        }
        breaks.push(found);
        extra.push(added);
        i = i + 1;
    }
    proof {
        assert(extra@ =~= extra_heights(nodes@, widths@));
    }
    (breaks, extra)
}

/// Where every node of a tree lies and where its text is broken. Lengths
/// are in subpixels, by the index of the node.
pub struct Layout {
    pub widths: Vec<i128>,
    pub heights: Vec<i128>,
    pub xs: Vec<i128>,
    pub ys: Vec<i128>,
    pub breaks: Vec<Vec<usize>>,
}

/// The four rows hold where every node of the tree lies: the widths are
/// settled first, the text is wrapped to them, the heights are settled
/// with what the wrapping adds, and every node is placed by its parent.
pub open spec fn laid_out(
    nodes: Seq<Node>,
    widths: Seq<i128>,
    heights: Seq<i128>,
    xs: Seq<i128>,
    ys: Seq<i128>,
) -> bool {
    &&& settled(nodes, fit_seq(nodes, no_extra(nodes.len()), Axis::X), Axis::X, widths)
    &&& settled(nodes, fit_seq(nodes, extra_heights(nodes, widths), Axis::Y), Axis::Y, heights)
    &&& placed(nodes, Axis::X, widths, xs)
    &&& placed(nodes, Axis::Y, heights, ys)
}

/// `lay` is the layout of the tree, and holds the breaks of every text.
pub open spec fn solved(nodes: Seq<Node>, lay: &Layout) -> bool {
    &&& laid_out(nodes, lay.widths@, lay.heights@, lay.xs@, lay.ys@)
    &&& lay.breaks.len() == nodes.len()
    &&& forall|i: int|
        0 <= i < nodes.len() ==> (#[trigger] lay.breaks[i])@.map_values(|b: usize| b as int)
            == breaks_at(nodes, lay.widths@, i)
}

/// Solves the layout of a tree whose nodes are all closed.
pub fn solve(nodes: &Vec<Node>) -> (lay: Layout)
    requires
        nodes_wf(nodes@),
        all_closed(nodes@),
    ensures
        solved(nodes@, &lay),
        sizes_bounded(nodes@, Axis::X, lay.widths@),
        sizes_bounded(nodes@, Axis::Y, lay.heights@),
{
    let n: usize = nodes.len();
    let mut nothing: Vec<i128> = Vec::new();
    let mut j: usize = 0;
    while j < n
        invariant
            j <= n,
            nothing.len() == j,
            forall|i: int| 0 <= i < j ==> nothing[i] == 0,
        decreases n - j,
    {
        nothing.push(0);
        j = j + 1;
    }
    proof {
        assert(nothing@ =~= no_extra(nodes@.len()));
    }
    let fit_widths: Vec<i128> = fit_sizes(nodes, &nothing, Axis::X);
    let widths: Vec<i128> = size_along_axis(nodes, &fit_widths, Axis::X);
    let (breaks, extra) = wrap_all(nodes, &widths);
    let fit_heights: Vec<i128> = fit_sizes(nodes, &extra, Axis::Y);
    let heights: Vec<i128> = size_along_axis(nodes, &fit_heights, Axis::Y);
    let xs: Vec<i128> = position_along_axis(nodes, &widths, Axis::X);
    let ys: Vec<i128> = position_along_axis(nodes, &heights, Axis::Y);
    Layout { widths, heights, xs, ys, breaks }
}

/// What wrapping adds to a height is not negative and not more than
/// `PER_TEXT`.
pub proof fn lemma_extra_heights(nodes: Seq<Node>, widths: Seq<i128>)
    requires
        nodes_wf(nodes),
    ensures
        extras_bounded(extra_heights(nodes, widths)),
        extra_heights(nodes, widths).len() == nodes.len(),
        forall|i: int|
            0 <= i < nodes.len() ==> extra_heights(nodes, widths)[i] == breaks_at(
                nodes,
                widths,
                i,
            ).len() * line_height_at(nodes, i) * SUBPIXELS,
{
    let extra = extra_heights(nodes, widths);
    assert forall|i: int| 0 <= i < extra.len() implies 0 <= #[trigger] extra[i] <= PER_TEXT
        && extra[i] == breaks_at(nodes, widths, i).len() * line_height_at(nodes, i)
        * SUBPIXELS by {
        assert(node_linked(nodes, i));
        let count = breaks_at(nodes, widths, i).len();
        let height = line_height_at(nodes, i);
        match nodes[i].element.object_type {
            ObjectType::Text(t) => {
                if i > 0 {
                    lemma_wrap_breaks(
                        t.text@,
                        t.bitmap.cell_size.x as int,
                        available_for(nodes, widths, i),
                        t.break_on_overflow,
                    );
                }
            },
            _ => {},
        }
        lemma_line_product(count as int, height);
    }
}

} // verus!
