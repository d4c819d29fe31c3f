//! The layout of a document: the record kept for each node, and the walk
//! that fills the records.

use vstd::prelude::*;
use crate::document::{Document, Node};
use crate::flex_items::{
    collect_flex_items,
    flex_items,
    lemma_flex_items_are_children,
    nodes_among,
    physical_size,
    resolve_style,
    resolved_style,
    DEFAULT_HEIGHT,
    DEFAULT_WIDTH,
};
use crate::flex_lines::FlexItem;
use crate::flex_place::{flex_rects, layout_items, sized_items, FlexContainer};
use crate::geometry::{saturate, saturate_i128, Rect};
use crate::style::{Display, Length, Rule, Style, StyleSheet};
use crate::Id;

verus! {

/// What layout keeps for one node: its bounds and its resolved style.
#[derive(Clone, Copy, Debug, PartialEq, Eq, Structural)]
pub struct LayoutRecord {
    pub bounds: Rect,
    pub style: Style,
}

impl LayoutRecord {
    /// The record of a node that was never laid out.
    pub open spec fn blank() -> LayoutRecord {
        LayoutRecord { bounds: Rect::zero(), style: Style::unset() }
    }

    /// The record of a node that was never laid out.
    pub fn new() -> (record: LayoutRecord)
        ensures
            record == LayoutRecord::blank(),
    {
        LayoutRecord { bounds: Rect::new(0, 0, 0, 0), style: Style::new() }
    }
}

/// Where a node laid out at `(x, y)` has its origin: moved right by its
/// left margin and down by its top margin.
pub open spec fn node_origin(style: Style, x: int, y: int) -> (int, int) {
    (saturate(x + style.margin_or_zero().left.px()), saturate(y + style.margin_or_zero().top.px()))
}

/// The extent of a node along one dimension. A node with children keeps an
/// extent that its record already holds; any other extent comes from the
/// style, or is the default where the style sets none above 0.
pub open spec fn node_extent(node: Node, present: i64, length: Option<Length>, fallback: u32) -> i64 {
    if node.children@.len() > 0 && present != 0 {
        present
    } else {
        physical_size(length, fallback) as i64
    }
}

/// The record of a node as its own layout leaves it, before its children
/// are laid out.
pub open spec fn placed_record(node: Node, record: LayoutRecord, style: Style, x: int, y: int) -> LayoutRecord {
    LayoutRecord {
        bounds: Rect {
            x: node_origin(style, x, y).0 as i64,
            y: node_origin(style, x, y).1 as i64,
            width: node_extent(node, record.bounds.width, style.width, DEFAULT_WIDTH),
            height: node_extent(node, record.bounds.height, style.height, DEFAULT_HEIGHT),
        },
        style,
    }
}

/// The records after the subtree of `node` is laid out at `(x, y)`.
///
/// The node's style is resolved from its cached style, its origin and size
/// are set, and its children are laid out: as flex items if the node's
/// `display` is `flex`, else one below the other.
pub open spec fn layout_node_spec(
    doc: Document,
    rules: Seq<Rule>,
    layouts: Seq<LayoutRecord>,
    node: int,
    x: int,
    y: int,
) -> Seq<LayoutRecord>
    decreases doc.rank@[node], 2int, 0int,
{
    let cached = layouts[node].style;
    let style = resolved_style(doc.nodes@[node], rules, cached, cached);
    let record = placed_record(doc.nodes@[node], layouts[node], style, x, y);
    let placed = layouts.update(node, record);
    if doc.nodes@[node].children@.len() == 0 {
        placed
    } else if style.display == Some(Display::Flex) {
        flex_children_spec(doc, rules, placed, node, style)
    } else {
        block_children_spec(
            doc,
            rules,
            placed,
            node,
            record.bounds.x as int,
            record.bounds.y as int,
            doc.nodes@[node].children@.len() as int,
        )
    }
}

/// The records after the children of a flex container are laid out.
///
/// The items are collected and placed from the records as they are on
/// entry; then each item in turn is given its rectangle and laid out.
pub open spec fn flex_children_spec(
    doc: Document,
    rules: Seq<Rule>,
    layouts: Seq<LayoutRecord>,
    container: int,
    style: Style,
) -> Seq<LayoutRecord>
    decreases doc.rank@[container], 1int, 0int,
{
    let items = flex_items(doc, rules, layouts, container, style);
    let c = FlexContainer::of(layouts[container].bounds, style);
    apply_items_spec(
        doc,
        rules,
        layouts,
        container,
        sized_items(items, c),
        flex_rects(items, c),
        items.len() as int,
    )
}

/// The records after the first `upto` items are applied.
///
/// An item is applied in three steps. Its rectangle and style are written
/// to its record, so that its own layout sees the size that flexing gave
/// it. Its subtree is laid out at the rectangle's origin. Then the
/// rectangle's size and the style are written again: they win over what
/// the node's own layout made of them.
pub open spec fn apply_items_spec(
    doc: Document,
    rules: Seq<Rule>,
    layouts: Seq<LayoutRecord>,
    container: int,
    items: Seq<FlexItem>,
    rects: Seq<Rect>,
    upto: int,
) -> Seq<LayoutRecord>
    decreases doc.rank@[container], 0int, upto,
{
    if upto <= 0 {
        layouts
    } else {
        let earlier = apply_items_spec(doc, rules, layouts, container, items, rects, upto - 1);
        let item = items[upto - 1];
        let rect = rects[upto - 1];
        let node = item.node as int;
        let written = earlier.update(node, LayoutRecord { bounds: rect, style: item.style });
        let laid = if doc.rank@[node] < doc.rank@[container] {
            layout_node_spec(doc, rules, written, node, rect.x as int, rect.y as int)
        } else {
            written
        };
        laid.update(
            node,
            LayoutRecord {
                bounds: Rect { width: rect.width, height: rect.height, ..laid[node].bounds },
                style: item.style,
            },
        )
    }
}

/// The records after the first `upto` children of a block container are
/// laid out: the first at `(x, y)`, each next one at `x` and where the one
/// before it ends.
pub open spec fn block_children_spec(
    doc: Document,
    rules: Seq<Rule>,
    layouts: Seq<LayoutRecord>,
    node: int,
    x: int,
    y: int,
    upto: int,
) -> Seq<LayoutRecord>
    decreases doc.rank@[node], 0int, upto,
{
    if upto <= 0 {
        layouts
    } else {
        let earlier = block_children_spec(doc, rules, layouts, node, x, y, upto - 1);
        let child = doc.nodes@[node].children@[upto - 1] as int;
        let top = if upto == 1 {
            y
        } else {
            let above = earlier[doc.nodes@[node].children@[upto - 2] as int].bounds;
            saturate(above.y + above.height)
        };
        if doc.rank@[child] < doc.rank@[node] {
            layout_node_spec(doc, rules, earlier, child, x, top)
        } else {
            earlier
        }
    }
}

/// Whether node `m` is one of the nodes that the first `upto` of the given
/// nodes stand for, or is below one of them.
pub open spec fn within_any(doc: Document, roots: Seq<int>, upto: int, m: int) -> bool {
    exists|k: int| 0 <= k < upto && #[trigger] doc.is_ancestor_or_self(roots[k], m)
}

/// The nodes that the items stand for.
pub open spec fn item_nodes(items: Seq<FlexItem>) -> Seq<int> {
    Seq::new(items.len(), |k: int| items[k].node as int)
}

/// The children of a node.
pub open spec fn child_nodes(doc: Document, node: int) -> Seq<int> {
    Seq::new(doc.nodes@[node].children@.len(), |k: int| doc.nodes@[node].children@[k] as int)
}

/// The layout of a subtree changes no record outside the subtree.
pub proof fn lemma_layout_node_frame(
    doc: Document,
    rules: Seq<Rule>,
    layouts: Seq<LayoutRecord>,
    node: int,
    x: int,
    y: int,
)
    requires
        doc.wf(),
        0 <= node < doc.len(),
        layouts.len() == doc.len(),
    ensures
        layout_node_spec(doc, rules, layouts, node, x, y).len() == layouts.len(),
        forall|m: int|
            0 <= m < doc.len() && !doc.is_ancestor_or_self(node, m) ==> #[trigger] layout_node_spec(
                doc,
                rules,
                layouts,
                node,
                x,
                y,
            )[m] == layouts[m],
    decreases doc.rank@[node], 2int, 0int,
{
    let cached = layouts[node].style;
    let style = resolved_style(doc.nodes@[node], rules, cached, cached);
    let record = placed_record(doc.nodes@[node], layouts[node], style, x, y);
    let placed = layouts.update(node, record);
    let out = layout_node_spec(doc, rules, layouts, node, x, y);
    if doc.nodes@[node].children@.len() == 0 {
    } else if style.display == Some(Display::Flex) {
        let fresh = flex_items(doc, rules, placed, node, style);
        let c = FlexContainer::of(placed[node].bounds, style);
        let items = sized_items(fresh, c);
        lemma_flex_items_are_children(doc, rules, placed, node, style);
        assert(nodes_among(items, doc.nodes@[node].children@)) by {
            assert forall|k: int| 0 <= k < items.len() implies doc.nodes@[node].children@.contains(
                (#[trigger] items[k]).node,
            ) by {
                assert(items[k].node == fresh[k].node);
            }
        }
        lemma_apply_items_frame(
            doc,
            rules,
            placed,
            node,
            items,
            flex_rects(fresh, c),
            items.len() as int,
        );
        assert forall|m: int| 0 <= m < doc.len() && !doc.is_ancestor_or_self(node, m) implies out[m]
            == layouts[m] by {
            if within_any(doc, item_nodes(items), items.len() as int, m) {
                let k = choose|k: int|
                    0 <= k < items.len() && #[trigger] doc.is_ancestor_or_self(
                        item_nodes(items)[k],
                        m,
                    );
                doc.lemma_below_child(node, items[k].node, m);
            }
        }
    } else {
        lemma_block_children_frame(
            doc,
            rules,
            placed,
            node,
            record.bounds.x as int,
            record.bounds.y as int,
            doc.nodes@[node].children@.len() as int,
        );
        assert forall|m: int| 0 <= m < doc.len() && !doc.is_ancestor_or_self(node, m) implies out[m]
            == layouts[m] by {
            let kids = child_nodes(doc, node);
            if within_any(doc, kids, kids.len() as int, m) {
                let k = choose|k: int|
                    0 <= k < kids.len() && #[trigger] doc.is_ancestor_or_self(kids[k], m);
                assert(doc.nodes@[node].children@.contains(doc.nodes@[node].children@[k]));
                doc.lemma_below_child(node, doc.nodes@[node].children@[k], m);
            }
        }
    }
}

/// Applying flex items changes no record but those of the items' nodes
/// and of the nodes below them.
pub proof fn lemma_apply_items_frame(
    doc: Document,
    rules: Seq<Rule>,
    layouts: Seq<LayoutRecord>,
    container: int,
    items: Seq<FlexItem>,
    rects: Seq<Rect>,
    upto: int,
)
    requires
        doc.wf(),
        0 <= container < doc.len(),
        layouts.len() == doc.len(),
        0 <= upto <= items.len(),
        nodes_among(items, doc.nodes@[container].children@),
    ensures
        apply_items_spec(doc, rules, layouts, container, items, rects, upto).len()
            == layouts.len(),
        forall|m: int|
            0 <= m < doc.len() && !within_any(doc, item_nodes(items), upto, m)
                ==> #[trigger] apply_items_spec(
                doc,
                rules,
                layouts,
                container,
                items,
                rects,
                upto,
            )[m] == layouts[m],
    decreases doc.rank@[container], 0int, upto,
{
    if upto > 0 {
        lemma_apply_items_frame(doc, rules, layouts, container, items, rects, upto - 1);
        let earlier = apply_items_spec(doc, rules, layouts, container, items, rects, upto - 1);
        let item = items[upto - 1];
        let rect = rects[upto - 1];
        let node = item.node as int;
        let kids = doc.nodes@[container].children@;
        assert(kids.contains(item.node));
        let j = choose|j: int| 0 <= j < kids.len() && kids[j] == item.node;
        assert(doc.is_child_edge(container, kids[j] as int));
        let written = earlier.update(node, LayoutRecord { bounds: rect, style: item.style });
        lemma_layout_node_frame(doc, rules, written, node, rect.x as int, rect.y as int);
        let laid = layout_node_spec(doc, rules, written, node, rect.x as int, rect.y as int);
        let out = apply_items_spec(doc, rules, layouts, container, items, rects, upto);
        assert forall|m: int|
            0 <= m < doc.len() && !within_any(doc, item_nodes(items), upto, m) implies out[m]
            == layouts[m] by {
            assert(!doc.is_ancestor_or_self(item_nodes(items)[upto - 1], m));
            assert(!within_any(doc, item_nodes(items), upto - 1, m)) by {
                if within_any(doc, item_nodes(items), upto - 1, m) {
                    let k = choose|k: int|
                        0 <= k < upto - 1 && #[trigger] doc.is_ancestor_or_self(
                            item_nodes(items)[k],
                            m,
                        );
                    assert(doc.is_ancestor_or_self(item_nodes(items)[k], m));
                }
            }
            assert(m != node);
        }
    }
}

/// Laying out block children changes no record but those of the children
/// and of the nodes below them.
pub proof fn lemma_block_children_frame(
    doc: Document,
    rules: Seq<Rule>,
    layouts: Seq<LayoutRecord>,
    node: int,
    x: int,
    y: int,
    upto: int,
)
    requires
        doc.wf(),
        0 <= node < doc.len(),
        layouts.len() == doc.len(),
        0 <= upto <= doc.nodes@[node].children@.len(),
    ensures
        block_children_spec(doc, rules, layouts, node, x, y, upto).len() == layouts.len(),
        forall|m: int|
            0 <= m < doc.len() && !within_any(doc, child_nodes(doc, node), upto, m)
                ==> #[trigger] block_children_spec(doc, rules, layouts, node, x, y, upto)[m]
                == layouts[m],
    decreases doc.rank@[node], 0int, upto,
{
    if upto > 0 {
        lemma_block_children_frame(doc, rules, layouts, node, x, y, upto - 1);
        let earlier = block_children_spec(doc, rules, layouts, node, x, y, upto - 1);
        let child = doc.nodes@[node].children@[upto - 1] as int;
        assert(doc.is_child_edge(node, doc.nodes@[node].children@[upto - 1] as int));
        let top = if upto == 1 {
            y
        } else {
            let above = earlier[doc.nodes@[node].children@[upto - 2] as int].bounds;
            saturate(above.y + above.height)
        };
        lemma_layout_node_frame(doc, rules, earlier, child, x, top);
        let out = block_children_spec(doc, rules, layouts, node, x, y, upto);
        let kids = child_nodes(doc, node);
        assert forall|m: int| 0 <= m < doc.len() && !within_any(doc, kids, upto, m) implies out[m]
            == layouts[m] by {
            assert(!doc.is_ancestor_or_self(kids[upto - 1], m));
            assert(!within_any(doc, kids, upto - 1, m)) by {
                if within_any(doc, kids, upto - 1, m) {
                    let k = choose|k: int|
                        0 <= k < upto - 1 && #[trigger] doc.is_ancestor_or_self(kids[k], m);
                    assert(doc.is_ancestor_or_self(kids[k], m));
                }
            }
        }
    }
}

/// The layout of a flex container changes the records of its descendants
/// only: not the container's own, and none outside its subtree. And it
/// leaves the record of a child that does not take part as it was, so that
/// a text child whose text is blank has no footprint in the layout.
pub proof fn lemma_flex_layout_frame(
    doc: Document,
    rules: Seq<Rule>,
    layouts: Seq<LayoutRecord>,
    container: int,
    style: Style,
)
    requires
        doc.wf(),
        0 <= container < doc.len(),
        layouts.len() == doc.len(),
    ensures
        flex_children_spec(doc, rules, layouts, container, style).len() == layouts.len(),
        forall|m: int|
            0 <= m < doc.len() && (m == container || !doc.is_ancestor_or_self(container, m))
                ==> #[trigger] flex_children_spec(doc, rules, layouts, container, style)[m]
                == layouts[m],
        forall|m: int|
            0 <= m < doc.len() && doc.nodes@[container].children@.contains(m as usize)
                && !crate::flex_items::participates(doc.nodes@[m]) ==> #[trigger] flex_children_spec(
                doc,
                rules,
                layouts,
                container,
                style,
            )[m] == layouts[m],
{
    let fresh = flex_items(doc, rules, layouts, container, style);
    let c = FlexContainer::of(layouts[container].bounds, style);
    let items = sized_items(fresh, c);
    let kids = doc.nodes@[container].children@;
    let out = flex_children_spec(doc, rules, layouts, container, style);
    lemma_flex_items_are_children(doc, rules, layouts, container, style);
    assert(nodes_among(items, kids)) by {
        assert forall|k: int| 0 <= k < items.len() implies kids.contains(
            (#[trigger] items[k]).node,
        ) by {
            assert(items[k].node == fresh[k].node);
        }
    }
    lemma_apply_items_frame(
        doc,
        rules,
        layouts,
        container,
        items,
        flex_rects(fresh, c),
        items.len() as int,
    );
    assert forall|m: int|
        0 <= m < doc.len() && (m == container || !doc.is_ancestor_or_self(
            container,
            m,
        )) implies out[m] == layouts[m] by {
        if within_any(doc, item_nodes(items), items.len() as int, m) {
            let k = choose|k: int|
                0 <= k < items.len() && #[trigger] doc.is_ancestor_or_self(item_nodes(items)[k], m);
            doc.lemma_below_child(container, items[k].node, m);
        }
    }
    assert forall|m: int|
        0 <= m < doc.len() && kids.contains(m as usize) && !crate::flex_items::participates(
            doc.nodes@[m],
        ) implies out[m] == layouts[m] by {
        crate::flex_items::lemma_no_item_without_part(doc, rules, layouts, container, style, m);
        if within_any(doc, item_nodes(items), items.len() as int, m) {
            let k = choose|k: int|
                0 <= k < items.len() && #[trigger] doc.is_ancestor_or_self(item_nodes(items)[k], m);
            let root = items[k].node as int;
            assert(fresh[k].node != m);
            assert(root != m);
            let j = choose|j: int| 0 <= j < kids.len() && kids[j] == m as usize;
            assert(doc.is_child_edge(container, kids[j] as int));
            assert(doc.is_ancestor_or_self(root, container));
            assert(kids.contains(items[k].node));
            doc.lemma_below_child(container, items[k].node, container);
        }
    }
}

fn extent_of(has_children: bool, present: i64, length: Option<Length>, fallback: u32) -> (extent: i64)
    ensures
        extent == (if has_children && present != 0 {
            present
        } else {
            physical_size(length, fallback) as i64
        }),
{
    if has_children && present != 0 {
        present
    } else {
        match length {
            Some(l) => {
                let px = l.to_px();
                if px > 0 {
                    px as i64
                } else {
                    fallback as i64
                }
            },
            None => fallback as i64,
        }
    }
}

/// Lays out the subtree of `node` at `(x, y)`.
pub fn layout_subtree(
    doc: &Document,
    sheet: &StyleSheet,
    layouts: &mut Vec<LayoutRecord>,
    node: usize,
    x: i64,
    y: i64,
)
    requires
        doc.wf(),
        node < doc.len(),
        old(layouts).len() == doc.len(),
    ensures
        final(layouts)@ == layout_node_spec(
            *doc,
            sheet.rules@,
            old(layouts)@,
            node as int,
            x as int,
            y as int,
        ),
        final(layouts).len() == doc.len(),
    decreases doc.rank@[node as int], 2int, 0int,
{
    let cached = layouts[node].style;
    let style = resolve_style(doc, sheet, layouts, node, &cached);
    let (left, top) = match style.margin {
        Some(m) => (m.left.to_px(), m.top.to_px()),
        None => (0, 0),
    };
    let has_children = !doc.nodes[node].children.is_empty();
    let present = layouts[node].bounds;
    let bounds = Rect {
        x: saturate_i128(x as i128 + left as i128),
        y: saturate_i128(y as i128 + top as i128),
        width: extent_of(has_children, present.width, style.width, DEFAULT_WIDTH),
        height: extent_of(has_children, present.height, style.height, DEFAULT_HEIGHT),
    };
    layouts[node] = LayoutRecord { bounds, style };
    if has_children {
        let flex = match style.display {
            Some(Display::Flex) => true,
            _ => false,
        };
        if flex {
            layout_flex_container(doc, sheet, layouts, node, &style);
        } else {
            layout_block_children(doc, sheet, layouts, node, bounds.x, bounds.y);
        }
    }
}

/// Lays out the children of a block container one below the other, the
/// first at `(x, y)`.
pub fn layout_block_children(
    doc: &Document,
    sheet: &StyleSheet,
    layouts: &mut Vec<LayoutRecord>,
    node: usize,
    x: i64,
    y: i64,
)
    requires
        doc.wf(),
        node < doc.len(),
        old(layouts).len() == doc.len(),
    ensures
        final(layouts)@ == block_children_spec(
            *doc,
            sheet.rules@,
            old(layouts)@,
            node as int,
            x as int,
            y as int,
            doc.nodes@[node as int].children@.len() as int,
        ),
        final(layouts).len() == doc.len(),
    decreases doc.rank@[node as int], 1int, 0int,
{
    let ghost before = layouts@;
    let children = &doc.nodes[node].children;
    let mut top = y;
    let mut k: usize = 0;
    while k < children.len()
        invariant
            doc.wf(),
            node < doc.len(),
            layouts.len() == doc.len(),
            children == doc.nodes@[node as int].children,
            k <= children.len(),
            layouts@ == block_children_spec(
                *doc,
                sheet.rules@,
                before,
                node as int,
                x as int,
                y as int,
                k as int,
            ),
            top == (if k == 0 {
                y as int
            } else {
                let above = layouts@[children@[k - 1] as int].bounds;
                saturate(above.y + above.height)
            }),
        decreases children.len() - k,
    {
        let child = children[k];
        assert(doc.is_child_edge(node as int, doc.nodes@[node as int].children@[k as int] as int));
        layout_subtree(doc, sheet, layouts, child, x, top);
        let below = layouts[child].bounds;
        top = saturate_i128(below.y as i128 + below.height as i128);
        k = k + 1;
    }
}

/// Lays out the children of a flex container whose own bounds are set.
pub fn layout_flex_container(
    doc: &Document,
    sheet: &StyleSheet,
    layouts: &mut Vec<LayoutRecord>,
    container: usize,
    container_style: &Style,
)
    requires
        doc.wf(),
        container < doc.len(),
        old(layouts).len() == doc.len(),
    ensures
        final(layouts)@ == flex_children_spec(
            *doc,
            sheet.rules@,
            old(layouts)@,
            container as int,
            *container_style,
        ),
        final(layouts).len() == doc.len(),
    decreases doc.rank@[container as int], 1int, 0int,
{
    let ghost before = layouts@;
    let mut items = collect_flex_items(doc, sheet, layouts, container, container_style);
    if items.len() == 0 {
        return ;
    }
    let ghost fresh = items@;
    let c = FlexContainer::resolve(&layouts[container].bounds, container_style);
    let rects = layout_items(&mut items, &c);
    proof {
        lemma_flex_items_are_children(
            *doc,
            sheet.rules@,
            before,
            container as int,
            *container_style,
        );
    }
    let mut k: usize = 0;
    while k < items.len()
        invariant
            doc.wf(),
            container < doc.len(),
            layouts.len() == doc.len(),
            fresh == flex_items(
                *doc,
                sheet.rules@,
                before,
                container as int,
                *container_style,
            ),
            nodes_among(fresh, doc.nodes@[container as int].children@),
            items@ == sized_items(fresh, c),
            rects@ == flex_rects(fresh, c),
            k <= items.len(),
            layouts@ == apply_items_spec(
                *doc,
                sheet.rules@,
                before,
                container as int,
                items@,
                rects@,
                k as int,
            ),
        decreases items.len() - k,
    {
        let item = items[k];
        let rect = rects[k];
        proof {
            let children = doc.nodes@[container as int].children@;
            assert(item.node == fresh[k as int].node);
            assert(children.contains(fresh[k as int].node));
            let j = choose|j: int| 0 <= j < children.len() && children[j] == item.node;
            assert(doc.is_child_edge(container as int, children[j] as int));
        }
        layouts[item.node] = LayoutRecord { bounds: rect, style: item.style };
        layout_subtree(doc, sheet, layouts, item.node, rect.x, rect.y);
        let laid = layouts[item.node].bounds;
        layouts[item.node] = LayoutRecord {
            bounds: Rect { x: laid.x, y: laid.y, width: rect.width, height: rect.height },
            style: item.style,
        };
        k = k + 1;
    }
}

/// A document, the style sheet that styles it, and one layout record for
/// each node that was laid out, by node index.
pub struct LayoutContext {
    pub document: Document,
    pub style_sheet: StyleSheet,
    pub layouts: Vec<LayoutRecord>,
}

/// The records extended with blank ones to the given number.
pub open spec fn padded(layouts: Seq<LayoutRecord>, len: int) -> Seq<LayoutRecord> {
    Seq::new(
        len as nat,
        |i: int|
            if i < layouts.len() {
                layouts[i]
            } else {
                LayoutRecord::blank()
            },
    )
}

impl LayoutContext {
    /// The context is well formed: its document is, and it holds no record
    /// for a node that the document lacks.
    pub open spec fn wf(&self) -> bool {
        &&& self.document.wf()
        &&& self.layouts@.len() <= self.document.len()
    }

    /// A context with no rules, no records, and a document that holds only
    /// its root: a node without text, attributes, children or parent.
    pub fn new() -> (ctx: LayoutContext)
        ensures
            ctx.wf(),
            ctx.document.len() == 1,
            ctx.document.nodes@[0].text is None,
            ctx.document.nodes@[0].attributes@.len() == 0,
            ctx.document.nodes@[0].children@.len() == 0,
            ctx.document.nodes@[0].parent is None,
            ctx.style_sheet.rules@.len() == 0,
            ctx.layouts@.len() == 0,
    {
        LayoutContext {
            document: Document::new(),
            style_sheet: StyleSheet::new(),
            layouts: Vec::new(),
        }
    }

    /// Gives every node of the document a record: the nodes that have none
    /// yet get a blank one.
    pub fn prepare(&mut self)
        requires
            old(self).wf(),
        ensures
            final(self).document == old(self).document,
            final(self).style_sheet == old(self).style_sheet,
            final(self).layouts@ == padded(old(self).layouts@, old(self).document.len()),
    {
        let ghost before = self.layouts@;
        while self.layouts.len() < self.document.nodes.len()
            invariant
                self.document == old(self).document,
                self.style_sheet == old(self).style_sheet,
                before.len() <= self.layouts@.len() <= self.document.len(),
                self.layouts@ == padded(before, self.layouts@.len() as int),
            decreases self.document.len() - self.layouts@.len(),
        {
            self.layouts.push(LayoutRecord::new());
            assert(self.layouts@ =~= padded(before, self.layouts@.len() as int));
        }
    }

    /// Lays out the whole document, with the root at the origin. The
    /// records that this leaves are a fixed point: laying out again, with
    /// nothing changed in between, gives the same records.
    pub fn layout(&mut self)
        requires
            old(self).wf(),
        ensures
            final(self).document == old(self).document,
            final(self).style_sheet == old(self).style_sheet,
            final(self).layouts@ == layout_node_spec(
                old(self).document,
                old(self).style_sheet.rules@,
                padded(old(self).layouts@, old(self).document.len()),
                0,
                0,
                0,
            ),
            final(self).layouts@.len() == old(self).document.len(),
            layout_node_spec(
                old(self).document,
                old(self).style_sheet.rules@,
                final(self).layouts@,
                0,
                0,
                0,
            ) == final(self).layouts@,
    {
        self.prepare();
        proof {
            crate::relayout::lemma_layout_twice(
                self.document,
                self.style_sheet.rules@,
                self.layouts@,
                0,
                0,
                0,
            );
        }
        layout_subtree(&self.document, &self.style_sheet, &mut self.layouts, 0, 0, 0);
    }

    /// Lays out the subtree of the node with the given index at `(x, y)`.
    /// A size that the node's record already holds is kept if the node has
    /// children.
    pub fn layout_node(&mut self, node: usize, x: i64, y: i64)
        requires
            old(self).wf(),
            node < old(self).document.len(),
        ensures
            final(self).document == old(self).document,
            final(self).style_sheet == old(self).style_sheet,
            final(self).layouts@ == layout_node_spec(
                old(self).document,
                old(self).style_sheet.rules@,
                padded(old(self).layouts@, old(self).document.len()),
                node as int,
                x as int,
                y as int,
            ),
            final(self).layouts@.len() == old(self).document.len(),
            layout_node_spec(
                old(self).document,
                old(self).style_sheet.rules@,
                final(self).layouts@,
                node as int,
                x as int,
                y as int,
            ) == final(self).layouts@,
    {
        self.prepare();
        proof {
            crate::relayout::lemma_layout_twice(
                self.document,
                self.style_sheet.rules@,
                self.layouts@,
                node as int,
                x as int,
                y as int,
            );
        }
        layout_subtree(&self.document, &self.style_sheet, &mut self.layouts, node, x, y);
    }

    /// The bounds that the last layout gave to the node with the given
    /// identity; `None` if there is no such node or it was never laid out.
    pub fn bounds_of(&self, id: Id) -> (bounds: Option<Rect>)
        requires
            self.wf(),
        ensures
            bounds is Some <==> self.document.knows(id) && self.document.index(id)
                < self.layouts@.len(),
            bounds is Some ==> bounds->0 == self.layouts@[self.document.index(id)].bounds,
    {
        match self.document.index_of(id) {
            Some(i) => {
                if i < self.layouts.len() {
                    Some(self.layouts[i].bounds)
                } else {
                    None
                }
            },
            None => None,
        }
    }
}

} // verus!
