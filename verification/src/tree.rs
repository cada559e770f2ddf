use crate::config::{ChildLayoutDirection, LayoutConfig, Sizing, SizingMode};
use crate::element::UiElement;
use vstd::prelude::*;

verus! {

/// The most nodes that one layout can hold, the root included: 2 to the
/// power of 18. The limit is that of the arithmetic: with lengths in
/// `SUBPIXELS` parts of a pixel, the positions of a deeper tree of the
/// largest elements would not fit into 128 bits.
pub const MAX_NODES: usize = 0x4_0000;

/// One element in the tree. Nodes lie in one vector in the order in which
/// they were opened, so a node comes before all nodes below it, and those
/// follow it without a gap.
pub struct Node {
    /// The node above; the root has none.
    pub parent: Option<usize>,
    pub element: UiElement,
    /// The nodes directly below, in the order in which they were opened.
    pub child_elements: Vec<usize>,
    /// The index behind the last node below this one, once the node has
    /// been closed.
    pub subtree_end: Option<usize>,
}

/// The tree that is being built, and the path of nodes that are still open.
pub struct CatplushContext {
    pub layout_elements: Vec<Node>,
    pub open_layout_elements: Vec<usize>,
}

/// The index behind the last node below node `i`. The nodes below an open
/// node go on to the end.
pub open spec fn end_of(nodes: Seq<Node>, i: int) -> int {
    match nodes[i].subtree_end {
        Some(e) => e as int,
        None => nodes.len() as int,
    }
}

/// The children of node `i`.
pub open spec fn kids(nodes: Seq<Node>, i: int) -> Seq<usize> {
    nodes[i].child_elements@
}

/// Whether node `i` has not been closed.
pub open spec fn is_open(nodes: Seq<Node>, i: int) -> bool {
    nodes[i].subtree_end is None
}

/// Whether node `i` is on the path of open nodes.
pub open spec fn on_path(path: Seq<usize>, i: int) -> bool {
    exists|j: int| 0 <= j < path.len() && #[trigger] path[j] == i
}

/// Whether node `i` is the child `k` of node `p`.
pub open spec fn is_kid(nodes: Seq<Node>, p: int, k: int, i: int) -> bool {
    0 <= k < kids(nodes, p).len() && kids(nodes, p)[k] == i
}

/// Node `i` has a valid element and a parent before it that lists it.
pub open spec fn node_linked(nodes: Seq<Node>, i: int) -> bool {
    &&& nodes[i].element.valid()
    &&& i == 0 ==> nodes[i].parent is None
    &&& i > 0 ==> nodes[i].parent is Some && nodes[i].parent->0 < i && exists|k: int|
        #[trigger] is_kid(nodes, nodes[i].parent->0 as int, k, i)
}

/// The child `k` of node `i` comes behind the node, has it as its parent
/// and, unless it is the last child, is closed and ends where the next
/// child starts.
pub open spec fn kid_spans(nodes: Seq<Node>, i: int, k: int) -> bool {
    &&& i < kids(nodes, i)[k] < nodes.len()
    &&& nodes[kids(nodes, i)[k] as int].parent == Some(i as usize)
    &&& k < kids(nodes, i).len() - 1 ==> nodes[kids(nodes, i)[k] as int].subtree_end == Some(
        kids(nodes, i)[k + 1],
    )
}

/// The nodes below node `i` are those from `i + 1` up to its end, and its
/// children split them: the first child follows the node, each further
/// child follows the nodes below the child before, and the nodes below
/// the last child end where those below the node end.
pub open spec fn node_spans(nodes: Seq<Node>, i: int) -> bool {
    &&& i < end_of(nodes, i) <= nodes.len()
    &&& kids(nodes, i).len() == 0 ==> end_of(nodes, i) == i + 1
    &&& kids(nodes, i).len() > 0 ==> kids(nodes, i)[0] == i + 1 && end_of(
        nodes,
        kids(nodes, i).last() as int,
    ) == end_of(nodes, i)
    &&& forall|k: int| 0 <= k < kids(nodes, i).len() ==> #[trigger] kid_spans(nodes, i, k)
}

/// The nodes form a tree in the order in which they were opened.
pub open spec fn nodes_wf(nodes: Seq<Node>) -> bool {
    &&& 1 <= nodes.len() <= MAX_NODES
    &&& forall|i: int| 0 <= i < nodes.len() ==> #[trigger] node_linked(nodes, i)
    &&& forall|i: int| 0 <= i < nodes.len() ==> #[trigger] node_spans(nodes, i)
}

/// The node `j` of the path is an open node, and the last child of the
/// node before it on the path.
pub open spec fn path_step(nodes: Seq<Node>, path: Seq<usize>, j: int) -> bool {
    &&& path[j] < nodes.len()
    &&& is_open(nodes, path[j] as int)
    &&& j >= 1 ==> kids(nodes, path[j - 1] as int).len() > 0 && kids(
        nodes,
        path[j - 1] as int,
    ).last() == path[j]
}

/// The open nodes are a path from the root down, each the last child of
/// the one before, and they are the nodes that have not been closed.
pub open spec fn path_wf(nodes: Seq<Node>, path: Seq<usize>) -> bool {
    &&& path.len() >= 1
    &&& path[0] == 0
    &&& forall|j: int| 0 <= j < path.len() ==> #[trigger] path_step(nodes, path, j)
    &&& forall|a: int, b: int|
        #![trigger path[a], path[b]]
        0 <= a < b < path.len() ==> path[a] < path[b]
    &&& forall|i: int| 0 <= i < nodes.len() && #[trigger] is_open(nodes, i) ==> on_path(path, i)
}

/// Every node of the tree has been closed.
pub open spec fn all_closed(nodes: Seq<Node>) -> bool {
    forall|i: int| 0 <= i < nodes.len() ==> !#[trigger] is_open(nodes, i)
}

/// What opening an element does to the nodes `was` and the path `path`.
pub open spec fn opened_from(
    now: Seq<Node>,
    now_path: Seq<usize>,
    was: Seq<Node>,
    path: Seq<usize>,
    element: UiElement,
) -> bool {
    let n = was.len() as int;
    let top = path.last() as int;
    &&& now.len() == n + 1
    &&& now[n].parent == Some(top as usize)
    &&& now[n].element == element
    &&& now[n].child_elements@.len() == 0
    &&& now[n].subtree_end is None
    &&& now[top].parent == was[top].parent
    &&& now[top].element == was[top].element
    &&& now[top].subtree_end == was[top].subtree_end
    &&& now[top].child_elements@ == was[top].child_elements@.push(n as usize)
    &&& forall|i: int| 0 <= i < n && i != top ==> #[trigger] now[i] == was[i]
    &&& now_path == path.push(n as usize)
}

/// What closing the top does to the nodes `was` and the path `path`.
pub open spec fn closed_from(
    now: Seq<Node>,
    now_path: Seq<usize>,
    was: Seq<Node>,
    path: Seq<usize>,
) -> bool {
    if path.len() <= 1 {
        now == was && now_path == path
    } else {
        let top = path.last() as int;
        &&& now.len() == was.len()
        &&& now[top].parent == was[top].parent
        &&& now[top].element == was[top].element
        &&& now[top].child_elements == was[top].child_elements
        &&& now[top].subtree_end == Some(was.len() as usize)
        &&& forall|i: int| 0 <= i < was.len() && i != top ==> #[trigger] now[i] == was[i]
        &&& now_path == path.drop_last()
    }
}

/// A node that is open and not the top of the path has an open node as
/// its last child.
pub proof fn lemma_open_node(nodes: Seq<Node>, path: Seq<usize>, i: int)
    requires
        nodes_wf(nodes),
        path_wf(nodes, path),
        0 <= i < nodes.len(),
        is_open(nodes, i),
    ensures
        i <= path.last(),
        i != path.last() ==> kids(nodes, i).len() > 0 && is_open(
            nodes,
            kids(nodes, i).last() as int,
        ),
{
    assert(on_path(path, i));
    let j = choose|j: int| 0 <= j < path.len() && #[trigger] path[j] == i;
    let last = path.len() - 1;
    assert(path[last] == path.last());
    if j < last {
        assert(path[j] < path[last]);
        assert(path_step(nodes, path, j + 1));
    }
}

/// The children of a closed node are closed.
pub proof fn lemma_closed_node(nodes: Seq<Node>, path: Seq<usize>, i: int, k: int)
    requires
        nodes_wf(nodes),
        path_wf(nodes, path),
        0 <= i < nodes.len(),
        !is_open(nodes, i),
        0 <= k < kids(nodes, i).len(),
    ensures
        !is_open(nodes, kids(nodes, i)[k] as int),
{
    let c = kids(nodes, i)[k] as int;
    assert(node_spans(nodes, i));
    assert(kid_spans(nodes, i, k));
    if is_open(nodes, c) {
        assert(on_path(path, c));
        let j = choose|j: int| 0 <= j < path.len() && #[trigger] path[j] == c;
        assert(path_step(nodes, path, j));
        assert(path_step(nodes, path, 0));
        assert(j >= 1);
        let p = path[j - 1] as int;
        assert(path_step(nodes, path, j - 1));
        assert(node_spans(nodes, p));
        assert(kid_spans(nodes, p, kids(nodes, p).len() - 1));
        assert(p == i);
    }
}

/// After opening an element, every node is still linked.
proof fn lemma_opened_linked(
    now: Seq<Node>,
    now_path: Seq<usize>,
    was: Seq<Node>,
    path: Seq<usize>,
    element: UiElement,
    i: int,
)
    requires
        nodes_wf(was),
        path_wf(was, path),
        element.valid(),
        opened_from(now, now_path, was, path, element),
        0 <= i < now.len(),
    ensures
        node_linked(now, i),
{
    let n = was.len() as int;
    let top = path.last() as int;
    assert(path_step(was, path, path.len() - 1));
    if i < n {
        assert(node_linked(was, i));
        if i != top {
            assert(now[i] == was[i]);
        }
        if i > 0 {
            let p = was[i].parent->0 as int;
            let k = choose|k: int| #[trigger] is_kid(was, p, k, i);
            if p != top {
                assert(now[p] == was[p]);
            }
            assert(is_kid(now, p, k, i));
        }
    } else {
        assert(is_kid(now, top, kids(was, top).len() as int, n));
    }
}

/// After opening an element, the top of the old path still spans its nodes.
proof fn lemma_opened_spans_top(
    now: Seq<Node>,
    now_path: Seq<usize>,
    was: Seq<Node>,
    path: Seq<usize>,
    element: UiElement,
)
    requires
        nodes_wf(was),
        path_wf(was, path),
        opened_from(now, now_path, was, path, element),
    ensures
        node_spans(now, path.last() as int),
{
    let n = was.len() as int;
    let top = path.last() as int;
    assert(path_step(was, path, path.len() - 1));
    assert(node_spans(was, top));
    let old_kids = kids(was, top);
    let new_kids = kids(now, top);
    if old_kids.len() > 0 {
        let c = old_kids.last() as int;
        assert(kid_spans(was, top, old_kids.len() - 1));
        if is_open(was, c) {
            lemma_open_node(was, path, c);
        }
        assert(now[c] == was[c]);
    }
    assert forall|k: int| 0 <= k < new_kids.len() implies #[trigger] kid_spans(now, top, k) by {
        if k < old_kids.len() {
            assert(kid_spans(was, top, k));
            assert(now[old_kids[k] as int] == was[old_kids[k] as int]);
        }
    }
}

/// After opening an element, a node other than the top of the old path
/// still spans its nodes.
proof fn lemma_opened_spans_other(
    now: Seq<Node>,
    now_path: Seq<usize>,
    was: Seq<Node>,
    path: Seq<usize>,
    element: UiElement,
    i: int,
)
    requires
        nodes_wf(was),
        path_wf(was, path),
        opened_from(now, now_path, was, path, element),
        0 <= i < was.len(),
        i != path.last(),
    ensures
        node_spans(now, i),
{
    let n = was.len() as int;
    let top = path.last() as int;
    assert(path_step(was, path, path.len() - 1));
    assert(node_spans(was, i));
    assert(now[i] == was[i]);
    let ks = kids(was, i);
    if is_open(was, i) {
        lemma_open_node(was, path, i);
        let c = ks.last() as int;
        assert(kid_spans(was, i, ks.len() - 1));
        if c != top {
            assert(now[c] == was[c]);
        }
    } else if ks.len() > 0 {
        lemma_closed_node(was, path, i, ks.len() - 1);
        let c = ks.last() as int;
        assert(kid_spans(was, i, ks.len() - 1));
        assert(now[c] == was[c]);
    }
    assert forall|k: int| 0 <= k < ks.len() implies #[trigger] kid_spans(now, i, k) by {
        assert(kid_spans(was, i, k));
        let c = ks[k] as int;
        if c != top {
            assert(now[c] == was[c]);
        }
    }
}

/// After opening an element, the path is still well formed.
proof fn lemma_opened_path(
    now: Seq<Node>,
    now_path: Seq<usize>,
    was: Seq<Node>,
    path: Seq<usize>,
    element: UiElement,
)
    requires
        nodes_wf(was),
        path_wf(was, path),
        opened_from(now, now_path, was, path, element),
    ensures
        path_wf(now, now_path),
{
    let n = was.len() as int;
    let top = path.last() as int;
    let last = path.len() - 1;
    assert(path_step(was, path, last));
    assert forall|j: int| 0 <= j < now_path.len() implies #[trigger] path_step(
        now,
        now_path,
        j,
    ) by {
        if j <= last {
            assert(path_step(was, path, j));
            if j < last {
                assert(path[j] < path[last]);
                assert(now[path[j] as int] == was[path[j] as int]);
            }
            if j >= 1 {
                assert(path[j - 1] < path[last]);
                assert(now[path[j - 1] as int] == was[path[j - 1] as int]);
            }
        }
    }
    assert forall|a: int, b: int|
        #![trigger now_path[a], now_path[b]]
        0 <= a < b < now_path.len() implies now_path[a] < now_path[b] by {
        assert(path_step(was, path, a));
        if b <= last {
            assert(path[a] < path[b]);
        }
    }
    assert forall|i: int| 0 <= i < now.len() && #[trigger] is_open(now, i) implies on_path(
        now_path,
        i,
    ) by {
        if i < n {
            if i != top {
                assert(now[i] == was[i]);
            }
            assert(is_open(was, i));
            assert(on_path(path, i));
            let j = choose|j: int| 0 <= j < path.len() && #[trigger] path[j] == i;
            assert(now_path[j] == i);
        } else {
            assert(now_path[last + 1] == i);
        }
    }
}

/// Opening an element keeps the tree and the path well formed.
pub proof fn lemma_opened_wf(
    now: Seq<Node>,
    now_path: Seq<usize>,
    was: Seq<Node>,
    path: Seq<usize>,
    element: UiElement,
)
    requires
        nodes_wf(was),
        path_wf(was, path),
        was.len() < MAX_NODES,
        element.valid(),
        opened_from(now, now_path, was, path, element),
    ensures
        nodes_wf(now),
        path_wf(now, now_path),
{
    assert forall|i: int| 0 <= i < now.len() implies #[trigger] node_linked(now, i) by {
        lemma_opened_linked(now, now_path, was, path, element, i);
    }
    assert forall|i: int| 0 <= i < now.len() implies #[trigger] node_spans(now, i) by {
        if i == was.len() {
        } else if i == path.last() {
            lemma_opened_spans_top(now, now_path, was, path, element);
        } else {
            lemma_opened_spans_other(now, now_path, was, path, element, i);
        }
    }
    lemma_opened_path(now, now_path, was, path, element);
}

/// After closing the top, node `i` is as well formed as before.
proof fn lemma_closed_node_wf(
    now: Seq<Node>,
    now_path: Seq<usize>,
    was: Seq<Node>,
    path: Seq<usize>,
    i: int,
)
    requires
        nodes_wf(was),
        path_wf(was, path),
        path.len() > 1,
        closed_from(now, now_path, was, path),
        0 <= i < was.len(),
    ensures
        node_linked(now, i),
        node_spans(now, i),
{
    let n = was.len() as int;
    let top = path.last() as int;
    assert(path_step(was, path, path.len() - 1));
    assert(node_linked(was, i));
    assert(node_spans(was, i));
    if i != top {
        assert(now[i] == was[i]);
    }
    if i > 0 {
        let p = was[i].parent->0 as int;
        let k = choose|k: int| #[trigger] is_kid(was, p, k, i);
        if p != top {
            assert(now[p] == was[p]);
        }
        assert(is_kid(now, p, k, i));
    }
    let ks = kids(was, i);
    if ks.len() > 0 {
        let c = ks.last() as int;
        assert(kid_spans(was, i, ks.len() - 1));
        if c != top {
            assert(now[c] == was[c]);
        }
    }
    assert forall|k: int| 0 <= k < ks.len() implies #[trigger] kid_spans(now, i, k) by {
        assert(kid_spans(was, i, k));
        let c = ks[k] as int;
        if c != top {
            assert(now[c] == was[c]);
        }
    }
}

/// Closing the top keeps the tree and the path well formed.
pub proof fn lemma_closed_wf(now: Seq<Node>, now_path: Seq<usize>, was: Seq<Node>, path: Seq<usize>)
    requires
        nodes_wf(was),
        path_wf(was, path),
        closed_from(now, now_path, was, path),
    ensures
        nodes_wf(now),
        path_wf(now, now_path),
{
    if path.len() > 1 {
        let n = was.len() as int;
        let top = path.last() as int;
        let last = path.len() - 1;
        assert(path_step(was, path, last));
        assert forall|i: int| 0 <= i < now.len() implies #[trigger] node_linked(now, i) by {
            lemma_closed_node_wf(now, now_path, was, path, i);
        }
        assert forall|i: int| 0 <= i < now.len() implies #[trigger] node_spans(now, i) by {
            lemma_closed_node_wf(now, now_path, was, path, i);
        }
        assert forall|j: int| 0 <= j < now_path.len() implies #[trigger] path_step(
            now,
            now_path,
            j,
        ) by {
            assert(path_step(was, path, j));
            assert(path[j] < path[last]);
            assert(now[path[j] as int] == was[path[j] as int]);
            if j >= 1 {
                assert(path[j - 1] < path[last]);
                assert(now[path[j - 1] as int] == was[path[j - 1] as int]);
            }
        }
        assert forall|a: int, b: int|
            #![trigger now_path[a], now_path[b]]
            0 <= a < b < now_path.len() implies now_path[a] < now_path[b] by {
            assert(path[a] < path[b]);
        }
        assert forall|i: int| 0 <= i < now.len() && #[trigger] is_open(now, i) implies on_path(
            now_path,
            i,
        ) by {
            assert(i != top);
            assert(now[i] == was[i]);
            assert(is_open(was, i));
            assert(on_path(path, i));
            let j = choose|j: int| 0 <= j < path.len() && #[trigger] path[j] == i;
            assert(now_path[j] == i);
        }
    }
}

impl CatplushContext {
    /// The tree is well formed and the open nodes are a path in it.
    pub open spec fn wf(&self) -> bool {
        &&& nodes_wf(self.layout_elements@)
        &&& path_wf(self.layout_elements@, self.open_layout_elements@)
    }

    /// How many nodes the tree holds, the root included.
    pub open spec fn node_count(&self) -> int {
        self.layout_elements@.len() as int
    }

    /// The node that the next element goes below.
    pub open spec fn top(&self) -> int {
        self.open_layout_elements@.last() as int
    }

    /// The layout of a window of this size, on which nothing was opened.
    pub open spec fn begun(
        &self,
        window_size: (i32, i32),
        direction: ChildLayoutDirection,
    ) -> bool {
        &&& self.layout_elements@.len() == 1
        &&& self.layout_elements@[0].parent is None
        &&& self.layout_elements@[0].child_elements@.len() == 0
        &&& self.layout_elements@[0].subtree_end is None
        &&& self.layout_elements@[0].element == (UiElement {
            layout: LayoutConfig {
                sizing: Sizing {
                    width: SizingMode::Fixed(window_size.0),
                    height: SizingMode::Fixed(window_size.1),
                },
                layout_direction: direction,
                ..LayoutConfig::initial()
            },
            ..UiElement::blank()
        })
        &&& self.open_layout_elements@ == seq![0usize]
    }

    /// What `open_element` makes of `before`: one node more, below the top
    /// of `before` and last among its children, and now the top itself.
    pub open spec fn opened(&self, before: &CatplushContext, element: UiElement) -> bool {
        opened_from(
            self.layout_elements@,
            self.open_layout_elements@,
            before.layout_elements@,
            before.open_layout_elements@,
            element,
        )
    }

    /// What `close_element` makes of `before`: the top is closed and off the
    /// path, unless it is the root, which stays open.
    pub open spec fn closed(&self, before: &CatplushContext) -> bool {
        closed_from(
            self.layout_elements@,
            self.open_layout_elements@,
            before.layout_elements@,
            before.open_layout_elements@,
        )
    }

    /// Starts the layout of a window: the root takes the size of the window
    /// and lines its children up in `layout_direction`.
    pub fn begin_layout(window_size: (i32, i32), layout_direction: ChildLayoutDirection) -> (ctx:
        Self)
        requires
            window_size.0 >= 0,
            window_size.1 >= 0,
        ensures
            ctx.wf(),
            ctx.begun(window_size, layout_direction),
    {
        let root = UiElement::new().sizing(
            SizingMode::Fixed(window_size.0),
            SizingMode::Fixed(window_size.1),
        ).layout_direction(layout_direction);
        let mut nodes: Vec<Node> = Vec::new();
        nodes.push(
            Node { parent: None, element: root, child_elements: Vec::new(), subtree_end: None },
        );
        let mut open: Vec<usize> = Vec::new();
        open.push(0);
        let ctx = CatplushContext { layout_elements: nodes, open_layout_elements: open };
        proof {
            assert(node_linked(ctx.layout_elements@, 0));
            assert(node_spans(ctx.layout_elements@, 0));
            assert(ctx.open_layout_elements@[0] == 0);
            assert(path_step(ctx.layout_elements@, ctx.open_layout_elements@, 0));
            assert forall|i: int|
                0 <= i < ctx.layout_elements@.len() && #[trigger] is_open(
                    ctx.layout_elements@,
                    i,
                ) implies on_path(ctx.open_layout_elements@, i) by {
                assert(ctx.open_layout_elements@[0] == i);
            }
        }
        ctx
    }

    /// Puts `element` below the node that was opened last and not closed
    /// yet, behind the children that node has, and opens it.
    pub fn open_element(&mut self, element: UiElement)
        requires
            old(self).wf(),
            element.valid(),
            old(self).node_count() < MAX_NODES,
        ensures
            final(self).wf(),
            final(self).opened(old(self), element),
            final(self).node_count() == old(self).node_count() + 1,
    {
        proof {
            assert(path_step(
                self.layout_elements@,
                self.open_layout_elements@,
                self.open_layout_elements@.len() - 1,
            ));
        }
        let new_element_index: usize = self.layout_elements.len();
        let parent_element: usize = self.open_layout_elements[self.open_layout_elements.len() - 1];
        self.layout_elements[parent_element].child_elements.push(new_element_index);
        self.open_layout_elements.push(new_element_index);
        self.layout_elements.push(
            Node {
                parent: Some(parent_element),
                element,
                child_elements: Vec::new(),
                subtree_end: None,
            },
        );
        proof {
            lemma_opened_wf(
                self.layout_elements@,
                self.open_layout_elements@,
                old(self).layout_elements@,
                old(self).open_layout_elements@,
                element,
            );
        }
    }

    /// Closes the node that was opened last and not closed yet. The root
    /// stays open: closing more often than opening does nothing.
    pub fn close_element(&mut self)
        requires
            old(self).wf(),
        ensures
            final(self).wf(),
            final(self).closed(old(self)),
            final(self).node_count() == old(self).node_count(),
    {
        if self.open_layout_elements.len() <= 1 {
            return ;
        }
        proof {
            assert(path_step(
                self.layout_elements@,
                self.open_layout_elements@,
                self.open_layout_elements@.len() - 1,
            ));
        }
        let last_opened_element: usize = self.open_layout_elements[self.open_layout_elements.len()
            - 1];
        let end: usize = self.layout_elements.len();
        self.layout_elements[last_opened_element].subtree_end = Some(end);
        self.open_layout_elements.pop();
        proof {
            lemma_closed_wf(
                self.layout_elements@,
                self.open_layout_elements@,
                old(self).layout_elements@,
                old(self).open_layout_elements@,
            );
        }
    }

    /// How many nodes the tree holds, the root included.
    pub fn len(&self) -> (n: usize)
        ensures
            n == self.node_count(),
    {
        self.layout_elements.len()
    }

    /// The elements of all nodes, the root first, in the order in which
    /// they were opened.
    pub fn get_all_elements(&self) -> (all: Vec<&UiElement>)
        ensures
            all.len() == self.node_count(),
            forall|i: int| 0 <= i < all.len() ==> *all[i] == self.layout_elements@[i].element,
    {
        let mut all: Vec<&UiElement> = Vec::new();
        let mut i: usize = 0;
        while i < self.layout_elements.len()
            invariant
                i <= self.layout_elements.len(),
                all.len() == i,
                forall|j: int| 0 <= j < i ==> *all[j] == self.layout_elements@[j].element,
            decreases self.layout_elements.len() - i,
        {
            all.push(&self.layout_elements[i].element);
            i = i + 1;
        }
        all
    }
}

} // verus!
