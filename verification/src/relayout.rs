//! Laying out again: a second layout of a subtree gives what the first
//! one gave.

use vstd::prelude::*;
use crate::document::Document;
use crate::flex_items::{
    flex_items,
    intrinsic_main,
    lemma_resolve_absorbs,
    participants,
    participates,
    resolved_style,
    DEFAULT_HEIGHT,
    DEFAULT_WIDTH,
};
use crate::flex_items::{nodes_among, nodes_distinct};
use crate::flex_lines::FlexItem;
use crate::flex_place::{flex_rects, sized_items, FlexContainer};
use crate::geometry::{saturate, Rect};
use crate::layout::{
    apply_items_spec,
    block_children_spec,
    child_nodes,
    item_nodes,
    layout_node_spec,
    lemma_apply_items_frame,
    lemma_block_children_frame,
    lemma_layout_node_frame,
    node_extent,
    placed_record,
    within_any,
    LayoutRecord,
};
use crate::style::{Display, FlexDirection, Rule, Style};

verus! {

/// Two records resolve alike for a node: whatever the fallback, the
/// node's style resolves from either to the same style.
pub open spec fn alike(
    doc: Document,
    rules: Seq<Rule>,
    a: LayoutRecord,
    b: LayoutRecord,
    m: int,
) -> bool {
    forall|f: Style| #[trigger]
        resolved_style(doc.nodes@[m], rules, a.style, f) == resolved_style(
            doc.nodes@[m],
            rules,
            b.style,
            f,
        )
}

/// The style that a node's own layout resolves from a record.
pub open spec fn own_style(doc: Document, rules: Seq<Rule>, record: LayoutRecord, m: int) -> Style {
    resolved_style(doc.nodes@[m], rules, record.style, record.style)
}

/// Whether a node's own layout lays out its children as flex items.
pub open spec fn flexes(doc: Document, rules: Seq<Rule>, record: LayoutRecord, m: int) -> bool {
    own_style(doc, rules, record, m).display == Some(Display::Flex)
}

/// Two records are as good as each other for a node's own layout: it
/// resolves the same style from them and finds the same size.
pub open spec fn settled(
    doc: Document,
    rules: Seq<Rule>,
    a: LayoutRecord,
    b: LayoutRecord,
    m: int,
) -> bool {
    let style = own_style(doc, rules, a, m);
    &&& alike(doc, rules, a, b, m)
    &&& own_style(doc, rules, b, m) == style
    &&& node_extent(doc.nodes@[m], b.bounds.width, style.width, DEFAULT_WIDTH) == node_extent(
        doc.nodes@[m],
        a.bounds.width,
        style.width,
        DEFAULT_WIDTH,
    )
    &&& node_extent(doc.nodes@[m], b.bounds.height, style.height, DEFAULT_HEIGHT) == node_extent(
        doc.nodes@[m],
        a.bounds.height,
        style.height,
        DEFAULT_HEIGHT,
    )
}

/// Whether node `m` is strictly below `node`.
pub open spec fn below(doc: Document, node: int, m: int) -> bool {
    0 <= m < doc.len() && m != node && doc.is_ancestor_or_self(node, m)
}

/// What relates the records `a` and `b` at a node `m` below the root of a
/// layout. They resolve alike. Under a parent that stacks its children
/// they are as good as each other for the node's own layout. Under a flex
/// container, a node that does not take part has the same record in both.
pub open spec fn matched(
    doc: Document,
    rules: Seq<Rule>,
    a: Seq<LayoutRecord>,
    b: Seq<LayoutRecord>,
    m: int,
) -> bool {
    let parent = doc.nodes@[m].parent->0 as int;
    &&& alike(doc, rules, a[m], b[m], m)
    &&& !flexes(doc, rules, a[parent], parent) ==> settled(doc, rules, a[m], b[m], m)
    &&& flexes(doc, rules, a[parent], parent) && !participates(doc.nodes@[m]) ==> b[m] == a[m]
}

/// The records `b` are ready to give the layout of the subtree of `node`
/// that the records `a` give.
pub open spec fn ready(
    doc: Document,
    rules: Seq<Rule>,
    a: Seq<LayoutRecord>,
    b: Seq<LayoutRecord>,
    node: int,
) -> bool {
    &&& a.len() == doc.len()
    &&& b.len() == doc.len()
    &&& settled(doc, rules, a[node], b[node], node)
    &&& forall|m: int| #[trigger] below(doc, node, m) ==> matched(doc, rules, a, b, m)
}

/// The records `a` and `b` resolve alike at every node below `node`.
pub open spec fn alike_below(
    doc: Document,
    rules: Seq<Rule>,
    a: Seq<LayoutRecord>,
    b: Seq<LayoutRecord>,
    node: int,
) -> bool {
    &&& a.len() == doc.len()
    &&& b.len() == doc.len()
    &&& forall|m: int| #[trigger] below(doc, node, m) ==> alike(doc, rules, a[m], b[m], m)
}

proof fn lemma_alike_below_child(
    doc: Document,
    rules: Seq<Rule>,
    a: Seq<LayoutRecord>,
    b: Seq<LayoutRecord>,
    node: int,
    k: int,
)
    requires
        doc.wf(),
        0 <= node < doc.len(),
        0 <= k < doc.nodes@[node].children@.len(),
        alike_below(doc, rules, a, b, node),
    ensures
        below(doc, node, doc.nodes@[node].children@[k] as int),
        alike(
            doc,
            rules,
            a[doc.nodes@[node].children@[k] as int],
            b[doc.nodes@[node].children@[k] as int],
            doc.nodes@[node].children@[k] as int,
        ),
        alike_below(doc, rules, a, b, doc.nodes@[node].children@[k] as int),
{
    let child = doc.nodes@[node].children@[k];
    doc.lemma_child_is_below(node, k);
    assert(below(doc, node, child as int));
    assert forall|m: int| #[trigger] below(doc, child as int, m) implies alike(
        doc,
        rules,
        a[m],
        b[m],
        m,
    ) by {
        doc.lemma_below_child(node, child, m);
        assert(below(doc, node, m));
    }
}

proof fn lemma_intrinsic_alike(
    doc: Document,
    rules: Seq<Rule>,
    a: Seq<LayoutRecord>,
    b: Seq<LayoutRecord>,
    node: int,
    direction: FlexDirection,
    fallback: Style,
    upto: int,
)
    requires
        doc.wf(),
        0 <= node < doc.len(),
        alike_below(doc, rules, a, b, node),
        0 <= upto <= doc.nodes@[node].children@.len(),
    ensures
        intrinsic_main(doc, rules, a, node, direction, fallback, upto) == intrinsic_main(
            doc,
            rules,
            b,
            node,
            direction,
            fallback,
            upto,
        ),
    decreases upto,
{
    if upto > 0 {
        lemma_intrinsic_alike(doc, rules, a, b, node, direction, fallback, upto - 1);
        lemma_alike_below_child(doc, rules, a, b, node, upto - 1);
    }
}

proof fn lemma_participants_alike(
    doc: Document,
    rules: Seq<Rule>,
    a: Seq<LayoutRecord>,
    b: Seq<LayoutRecord>,
    container: int,
    container_style: Style,
    direction: FlexDirection,
    upto: int,
)
    requires
        doc.wf(),
        0 <= container < doc.len(),
        alike_below(doc, rules, a, b, container),
        0 <= upto <= doc.nodes@[container].children@.len(),
    ensures
        participants(doc, rules, a, container, container_style, direction, upto) == participants(
            doc,
            rules,
            b,
            container,
            container_style,
            direction,
            upto,
        ),
    decreases upto,
{
    if upto > 0 {
        lemma_participants_alike(
            doc,
            rules,
            a,
            b,
            container,
            container_style,
            direction,
            upto - 1,
        );
        let child = doc.nodes@[container].children@[upto - 1] as int;
        lemma_alike_below_child(doc, rules, a, b, container, upto - 1);
        let style = resolved_style(doc.nodes@[child], rules, a[child].style, container_style);
        lemma_intrinsic_alike(
            doc,
            rules,
            a,
            b,
            child,
            direction,
            style,
            doc.nodes@[child].children@.len() as int,
        );
    }
}

/// The flex items of a container are the same from records that resolve
/// alike at every node below the container.
pub proof fn lemma_items_alike(
    doc: Document,
    rules: Seq<Rule>,
    a: Seq<LayoutRecord>,
    b: Seq<LayoutRecord>,
    container: int,
    container_style: Style,
)
    requires
        doc.wf(),
        0 <= container < doc.len(),
        alike_below(doc, rules, a, b, container),
    ensures
        flex_items(doc, rules, a, container, container_style) == flex_items(
            doc,
            rules,
            b,
            container,
            container_style,
        ),
{
    lemma_participants_alike(
        doc,
        rules,
        a,
        b,
        container,
        container_style,
        crate::flex_place::direction_of(container_style),
        doc.nodes@[container].children@.len() as int,
    );
}

/// The flex items of a container are made from the tree and the styles
/// alone: the bounds that any record holds make no difference to them.
pub proof fn lemma_items_ignore_bounds(
    doc: Document,
    rules: Seq<Rule>,
    a: Seq<LayoutRecord>,
    b: Seq<LayoutRecord>,
    container: int,
    container_style: Style,
)
    requires
        doc.wf(),
        0 <= container < doc.len(),
        a.len() == doc.len(),
        b.len() == doc.len(),
        forall|i: int| 0 <= i < doc.len() ==> (#[trigger] a[i]).style == b[i].style,
    ensures
        flex_items(doc, rules, a, container, container_style) == flex_items(
            doc,
            rules,
            b,
            container,
            container_style,
        ),
{
    assert forall|m: int| #[trigger] below(doc, container, m) implies alike(
        doc,
        rules,
        a[m],
        b[m],
        m,
    ) by {
        assert(a[m].style == b[m].style);
    }
    lemma_items_alike(doc, rules, a, b, container, container_style);
}

/// The record that carries an item's style.
pub open spec fn styled(style: Style) -> LayoutRecord {
    LayoutRecord { bounds: Rect::zero(), style }
}

/// Each item's style resolves as the style that its node has in `a` does.
pub open spec fn items_alike(
    doc: Document,
    rules: Seq<Rule>,
    a: Seq<LayoutRecord>,
    items: Seq<FlexItem>,
) -> bool {
    forall|k: int|
        0 <= k < items.len() ==> alike(
            doc,
            rules,
            a[(#[trigger] items[k]).node as int],
            styled(items[k].style),
            items[k].node as int,
        )
}

/// Two lists of records agree on the subtree of `node`.
pub open spec fn agree_within(
    doc: Document,
    a: Seq<LayoutRecord>,
    b: Seq<LayoutRecord>,
    node: int,
) -> bool {
    forall|m: int| 0 <= m < doc.len() && #[trigger] doc.is_ancestor_or_self(node, m) ==> b[m] == a[m]
}

/// Whether a node with children lays them out as flex items depends on how
/// its style resolves, not on the fallback.
proof fn lemma_flexes_alike(
    doc: Document,
    rules: Seq<Rule>,
    a: LayoutRecord,
    b: LayoutRecord,
    p: int,
)
    requires
        alike(doc, rules, a, b, p),
        doc.nodes@[p].children@.len() > 0,
    ensures
        flexes(doc, rules, a, p) == flexes(doc, rules, b, p),
        own_style(doc, rules, a, p) == own_style(doc, rules, b, p),
{
    let f = Style::unset();
    assert(resolved_style(doc.nodes@[p], rules, a.style, f) == resolved_style(
        doc.nodes@[p],
        rules,
        b.style,
        f,
    ));
}

/// The parent of a node below `node` is `node` or below it.
proof fn lemma_parent_below(doc: Document, node: int, m: int)
    requires
        doc.wf(),
        0 <= node < doc.len(),
        below(doc, node, m),
    ensures
        doc.nodes@[m].parent is Some,
        doc.nodes@[m].parent->0 == node || below(doc, node, doc.nodes@[m].parent->0 as int),
        doc.nodes@[doc.nodes@[m].parent->0 as int].children@.len() > 0,
        doc.nodes@[doc.nodes@[m].parent->0 as int].children@.contains(m as usize),
        0 <= doc.nodes@[m].parent->0 < doc.len(),
{
    doc.lemma_parent_rank(m);
}

/// The facts that match two lists of records below `child` carry over to
/// lists that hold the same records below `child`, and at `child` a record
/// that resolves as the one before.
proof fn lemma_matched_carries(
    doc: Document,
    rules: Seq<Rule>,
    a: Seq<LayoutRecord>,
    b: Seq<LayoutRecord>,
    wa: Seq<LayoutRecord>,
    wb: Seq<LayoutRecord>,
    child: int,
)
    requires
        doc.wf(),
        0 <= child < doc.len(),
        a.len() == doc.len(),
        b.len() == doc.len(),
        wa.len() == doc.len(),
        wb.len() == doc.len(),
        forall|m: int| #[trigger] below(doc, child, m) ==> matched(doc, rules, a, b, m),
        forall|m: int| #[trigger] below(doc, child, m) ==> wa[m] == a[m] && wb[m] == b[m],
        alike(doc, rules, a[child], wa[child], child),
    ensures
        forall|m: int| #[trigger] below(doc, child, m) ==> matched(doc, rules, wa, wb, m),
{
    assert forall|m: int| #[trigger] below(doc, child, m) implies matched(
        doc,
        rules,
        wa,
        wb,
        m,
    ) by {
        lemma_parent_below(doc, child, m);
        let p = doc.nodes@[m].parent->0 as int;
        assert(matched(doc, rules, a, b, m));
        if p == child {
            lemma_flexes_alike(doc, rules, a[child], wa[child], child);
        } else {
            assert(below(doc, child, p));
        }
    }
}

/// Two lists of records that are ready for the layout of a subtree give
/// the same layout of it.
pub proof fn lemma_same_layout(
    doc: Document,
    rules: Seq<Rule>,
    a: Seq<LayoutRecord>,
    b: Seq<LayoutRecord>,
    node: int,
    x: int,
    y: int,
)
    requires
        doc.wf(),
        0 <= node < doc.len(),
        ready(doc, rules, a, b, node),
    ensures
        layout_node_spec(doc, rules, a, node, x, y).len() == doc.len(),
        layout_node_spec(doc, rules, b, node, x, y).len() == doc.len(),
        agree_within(
            doc,
            layout_node_spec(doc, rules, a, node, x, y),
            layout_node_spec(doc, rules, b, node, x, y),
            node,
        ),
    decreases doc.rank@[node], 2int, 0int,
{
    let style = own_style(doc, rules, a[node], node);
    let record = placed_record(doc.nodes@[node], a[node], style, x, y);
    assert(record == placed_record(doc.nodes@[node], b[node], style, x, y));
    let pa = a.update(node, record);
    let pb = b.update(node, record);
    let oa = layout_node_spec(doc, rules, a, node, x, y);
    let ob = layout_node_spec(doc, rules, b, node, x, y);
    lemma_layout_node_frame(doc, rules, a, node, x, y);
    lemma_layout_node_frame(doc, rules, b, node, x, y);
    let kids = doc.nodes@[node].children@;
    if kids.len() == 0 {
        assert forall|m: int| 0 <= m < doc.len() && #[trigger] doc.is_ancestor_or_self(
            node,
            m,
        ) implies ob[m] == oa[m] by {
            if m != node {
                let c = doc.lemma_below_some_child(node, m);
            }
        }
    } else {
        lemma_resolve_absorbs(doc.nodes@[node], rules, a[node].style, a[node].style, style);
        assert(alike(doc, rules, a[node], pa[node], node)) by {
            assert forall|f: Style| #[trigger]
                resolved_style(doc.nodes@[node], rules, a[node].style, f) == resolved_style(
                    doc.nodes@[node],
                    rules,
                    pa[node].style,
                    f,
                ) by {
                lemma_resolve_absorbs(doc.nodes@[node], rules, a[node].style, a[node].style, f);
            }
        }
        lemma_flexes_alike(doc, rules, a[node], pa[node], node);
        assert forall|m: int| #[trigger] below(doc, node, m) implies pa[m] == a[m] && pb[m]
            == b[m] by {}
        lemma_matched_carries(doc, rules, a, b, pa, pb, node);
        if style.display == Some(Display::Flex) {
            let fresh = flex_items(doc, rules, pa, node, style);
            assert(alike_below(doc, rules, pa, pb, node)) by {
                assert forall|m: int| #[trigger] below(doc, node, m) implies alike(
                    doc,
                    rules,
                    pa[m],
                    pb[m],
                    m,
                ) by {
                    assert(matched(doc, rules, pa, pb, m));
                }
            }
            lemma_items_alike(doc, rules, pa, pb, node, style);
            let c = FlexContainer::of(pa[node].bounds, style);
            let items = sized_items(fresh, c);
            let rects = flex_rects(fresh, c);
            lemma_items_fit(doc, rules, pa, node, style);
            lemma_same_items(doc, rules, pa, pb, node, items, rects, items.len() as int);
            lemma_apply_items_frame(doc, rules, pa, node, items, rects, items.len() as int);
            lemma_apply_items_frame(doc, rules, pb, node, items, rects, items.len() as int);
            assert forall|m: int| 0 <= m < doc.len() && #[trigger] doc.is_ancestor_or_self(
                node,
                m,
            ) implies ob[m] == oa[m] by {
                if !within_any(doc, item_nodes(items), items.len() as int, m) && m != node {
                    let child = doc.lemma_below_some_child(node, m);
                    let j = choose|j: int| 0 <= j < kids.len() && kids[j] == child;
                    if participates(doc.nodes@[child as int]) {
                        let k = crate::flex_items::lemma_item_for_participant(
                            doc,
                            rules,
                            pa,
                            node,
                            style,
                            j,
                        );
                        assert(items[k].node == fresh[k].node);
                        assert(doc.is_ancestor_or_self(item_nodes(items)[k], m));
                    } else {
                        doc.lemma_child_is_below(node, j);
                        if m != child as int {
                            let g = doc.lemma_below_some_child(child as int, m);
                        }
                        assert(below(doc, node, m));
                        assert(matched(doc, rules, pa, pb, m));
                    }
                }
            }
        } else {
            lemma_same_block(
                doc,
                rules,
                pa,
                pb,
                node,
                record.bounds.x as int,
                record.bounds.y as int,
                kids.len() as int,
            );
            assert forall|m: int| 0 <= m < doc.len() && #[trigger] doc.is_ancestor_or_self(
                node,
                m,
            ) implies ob[m] == oa[m] by {
                lemma_block_children_frame(
                    doc,
                    rules,
                    pa,
                    node,
                    record.bounds.x as int,
                    record.bounds.y as int,
                    kids.len() as int,
                );
                lemma_block_children_frame(
                    doc,
                    rules,
                    pb,
                    node,
                    record.bounds.x as int,
                    record.bounds.y as int,
                    kids.len() as int,
                );
                if m != node {
                    let child = doc.lemma_below_some_child(node, m);
                    let j = choose|j: int| 0 <= j < kids.len() && kids[j] == child;
                    assert(doc.is_ancestor_or_self(child_nodes(doc, node)[j], m));
                } else {
                    if within_any(doc, child_nodes(doc, node), kids.len() as int, m) {
                        let k = choose|k: int|
                            0 <= k < kids.len() && #[trigger] doc.is_ancestor_or_self(
                                child_nodes(doc, node)[k],
                                m,
                            );
                        doc.lemma_child_is_below(node, k);
                        doc.lemma_below_child(node, kids[k], m);
                    }
                }
            }
        }
    }
}

/// The sized flex items of a container stand for distinct children of it,
/// and each carries a style that resolves as its node's record does.
pub proof fn lemma_items_fit(
    doc: Document,
    rules: Seq<Rule>,
    a: Seq<LayoutRecord>,
    node: int,
    style: Style,
)
    requires
        doc.wf(),
        0 <= node < doc.len(),
        a.len() == doc.len(),
    ensures
        ({
            let fresh = flex_items(doc, rules, a, node, style);
            let items = sized_items(fresh, FlexContainer::of(a[node].bounds, style));
            &&& items.len() == fresh.len()
            &&& nodes_among(items, doc.nodes@[node].children@)
            &&& nodes_distinct(items)
            &&& items_alike(doc, rules, a, items)
            &&& crate::flex_items::all_take_part(doc, items)
        }),
{
    let fresh = flex_items(doc, rules, a, node, style);
    let items = sized_items(fresh, FlexContainer::of(a[node].bounds, style));
    let direction = crate::flex_place::direction_of(style);
    let kids = doc.nodes@[node].children@;
    crate::flex_items::lemma_flex_items_are_children(doc, rules, a, node, style);
    crate::flex_items::lemma_flex_items_distinct(doc, rules, a, node, style);
    crate::flex_items::lemma_items_take_part(doc, rules, a, node, style);
    crate::flex_items::lemma_items_resolved(doc, rules, a, node, style);
    assert forall|k: int| 0 <= k < items.len() implies kids.contains((#[trigger] items[k]).node)
        && participates(doc.nodes@[items[k].node as int]) && alike(
        doc,
        rules,
        a[items[k].node as int],
        styled(items[k].style),
        items[k].node as int,
    ) by {
        assert(items[k].node == fresh[k].node && items[k].style == fresh[k].style);
        assert(kids.contains(fresh[k].node));
        let n = fresh[k].node as int;
        assert forall|f: Style| #[trigger]
            resolved_style(doc.nodes@[n], rules, a[n].style, f) == resolved_style(
                doc.nodes@[n],
                rules,
                fresh[k].style,
                f,
            ) by {
            lemma_resolve_absorbs(doc.nodes@[n], rules, a[n].style, style, f);
        }
    }
    assert forall|i: int, j: int| 0 <= i < j < items.len() implies (#[trigger] items[i]).node != (
    #[trigger] items[j]).node by {
        assert(items[i].node == fresh[i].node && items[j].node == fresh[j].node);
    }
}

/// Applying the same items to two lists of records that are matched below
/// the container gives the same records for the items' subtrees.
pub proof fn lemma_same_items(
    doc: Document,
    rules: Seq<Rule>,
    pa: Seq<LayoutRecord>,
    pb: Seq<LayoutRecord>,
    node: int,
    items: Seq<FlexItem>,
    rects: Seq<Rect>,
    upto: int,
)
    requires
        doc.wf(),
        0 <= node < doc.len(),
        pa.len() == doc.len(),
        pb.len() == doc.len(),
        forall|m: int| #[trigger] below(doc, node, m) ==> matched(doc, rules, pa, pb, m),
        0 <= upto <= items.len(),
        nodes_among(items, doc.nodes@[node].children@),
        nodes_distinct(items),
        items_alike(doc, rules, pa, items),
    ensures
        apply_items_spec(doc, rules, pa, node, items, rects, upto).len() == doc.len(),
        apply_items_spec(doc, rules, pb, node, items, rects, upto).len() == doc.len(),
        forall|m: int|
            0 <= m < doc.len() && within_any(doc, item_nodes(items), upto, m)
                ==> #[trigger] apply_items_spec(doc, rules, pb, node, items, rects, upto)[m]
                == apply_items_spec(doc, rules, pa, node, items, rects, upto)[m],
    decreases doc.rank@[node], 0int, upto,
{
    lemma_apply_items_frame(doc, rules, pa, node, items, rects, upto);
    lemma_apply_items_frame(doc, rules, pb, node, items, rects, upto);
    if upto > 0 {
        let k = upto - 1;
        lemma_same_items(doc, rules, pa, pb, node, items, rects, k);
        lemma_apply_items_frame(doc, rules, pa, node, items, rects, k);
        lemma_apply_items_frame(doc, rules, pb, node, items, rects, k);
        let ea0 = apply_items_spec(doc, rules, pa, node, items, rects, k);
        let eb0 = apply_items_spec(doc, rules, pb, node, items, rects, k);
        let ea = apply_items_spec(doc, rules, pa, node, items, rects, upto);
        let eb = apply_items_spec(doc, rules, pb, node, items, rects, upto);
        let item = items[k];
        let rect = rects[k];
        let c = item.node as int;
        let kids = doc.nodes@[node].children@;
        assert(kids.contains(item.node));
        let j = choose|j: int| 0 <= j < kids.len() && kids[j] == item.node;
        doc.lemma_child_is_below(node, j);
        let written = LayoutRecord { bounds: rect, style: item.style };
        let wa = ea0.update(c, written);
        let wb = eb0.update(c, written);
        // below the item nothing was touched yet
        assert forall|m: int| #[trigger] below(doc, c, m) implies wa[m] == pa[m] && wb[m]
            == pb[m] && matched(doc, rules, pa, pb, m) by {
            doc.lemma_below_child(node, item.node, m);
            assert(below(doc, node, m));
            lemma_untouched(doc, node, items, k, k, m);
        }
        assert(alike(doc, rules, pa[c], wa[c], c)) by {
            assert(alike(doc, rules, pa[c], styled(item.style), c));
            assert forall|f: Style| #[trigger]
                resolved_style(doc.nodes@[c], rules, pa[c].style, f) == resolved_style(
                    doc.nodes@[c],
                    rules,
                    wa[c].style,
                    f,
                ) by {
                assert(resolved_style(doc.nodes@[c], rules, pa[c].style, f) == resolved_style(
                    doc.nodes@[c],
                    rules,
                    styled(item.style).style,
                    f,
                ));
            }
        }
        lemma_matched_carries(doc, rules, pa, pb, wa, wb, c);
        assert(settled(doc, rules, wa[c], wb[c], c));
        assert(ready(doc, rules, wa, wb, c));
        lemma_same_layout(doc, rules, wa, wb, c, rect.x as int, rect.y as int);
        lemma_layout_node_frame(doc, rules, wa, c, rect.x as int, rect.y as int);
        lemma_layout_node_frame(doc, rules, wb, c, rect.x as int, rect.y as int);
        let la = layout_node_spec(doc, rules, wa, c, rect.x as int, rect.y as int);
        let lb = layout_node_spec(doc, rules, wb, c, rect.x as int, rect.y as int);
        assert(doc.is_ancestor_or_self(c, c));
        assert(lb[c] == la[c]);
        assert forall|m: int|
            0 <= m < doc.len() && within_any(doc, item_nodes(items), upto, m) implies eb[m]
            == ea[m] by {
            if doc.is_ancestor_or_self(c, m) {
                assert(lb[m] == la[m]);
            } else {
                let w = choose|w: int|
                    0 <= w < upto && #[trigger] doc.is_ancestor_or_self(item_nodes(items)[w], m);
                assert(w != k);
                assert(doc.is_ancestor_or_self(item_nodes(items)[w], m));
                assert(within_any(doc, item_nodes(items), k, m));
                assert(eb0[m] == ea0[m]);
                assert(la[m] == wa[m]);
                assert(lb[m] == wb[m]);
            }
        }
    }
}

/// A node in the subtree of one item is in the subtree of no other.
proof fn lemma_untouched(
    doc: Document,
    node: int,
    items: Seq<FlexItem>,
    k: int,
    upto: int,
    m: int,
)
    requires
        doc.wf(),
        0 <= node < doc.len(),
        0 <= m < doc.len(),
        0 <= k < items.len(),
        0 <= upto <= k,
        nodes_among(items, doc.nodes@[node].children@),
        nodes_distinct(items),
        doc.is_ancestor_or_self(items[k].node as int, m),
    ensures
        !within_any(doc, item_nodes(items), upto, m),
{
    if within_any(doc, item_nodes(items), upto, m) {
        let w = choose|w: int|
            0 <= w < upto && #[trigger] doc.is_ancestor_or_self(item_nodes(items)[w], m);
        assert(items[w].node != items[k].node);
        assert(doc.nodes@[node].children@.contains(items[w].node));
        assert(doc.nodes@[node].children@.contains(items[k].node));
        doc.lemma_siblings_apart(node, items[k].node, items[w].node, m);
    }
}

/// Laying out the children of a block container from two lists of records
/// that are matched below it gives the same records for their subtrees.
pub proof fn lemma_same_block(
    doc: Document,
    rules: Seq<Rule>,
    pa: Seq<LayoutRecord>,
    pb: Seq<LayoutRecord>,
    node: int,
    x: int,
    y: int,
    upto: int,
)
    requires
        doc.wf(),
        0 <= node < doc.len(),
        pa.len() == doc.len(),
        pb.len() == doc.len(),
        forall|m: int| #[trigger] below(doc, node, m) ==> matched(doc, rules, pa, pb, m),
        !flexes(doc, rules, pa[node], node),
        0 <= upto <= doc.nodes@[node].children@.len(),
    ensures
        block_children_spec(doc, rules, pa, node, x, y, upto).len() == doc.len(),
        block_children_spec(doc, rules, pb, node, x, y, upto).len() == doc.len(),
        forall|m: int|
            0 <= m < doc.len() && within_any(doc, child_nodes(doc, node), upto, m)
                ==> #[trigger] block_children_spec(doc, rules, pb, node, x, y, upto)[m]
                == block_children_spec(doc, rules, pa, node, x, y, upto)[m],
    decreases doc.rank@[node], 0int, upto,
{
    lemma_block_children_frame(doc, rules, pa, node, x, y, upto);
    lemma_block_children_frame(doc, rules, pb, node, x, y, upto);
    if upto > 0 {
        let k = upto - 1;
        lemma_same_block(doc, rules, pa, pb, node, x, y, k);
        lemma_block_children_frame(doc, rules, pa, node, x, y, k);
        lemma_block_children_frame(doc, rules, pb, node, x, y, k);
        let ea0 = block_children_spec(doc, rules, pa, node, x, y, k);
        let eb0 = block_children_spec(doc, rules, pb, node, x, y, k);
        let ea = block_children_spec(doc, rules, pa, node, x, y, upto);
        let eb = block_children_spec(doc, rules, pb, node, x, y, upto);
        let kids = doc.nodes@[node].children@;
        let roots = child_nodes(doc, node);
        let c = kids[k] as int;
        doc.lemma_child_is_below(node, k);
        let top_a = if upto == 1 {
            y
        } else {
            let above = ea0[kids[upto - 2] as int].bounds;
            saturate(above.y + above.height)
        };
        let top_b = if upto == 1 {
            y
        } else {
            let above = eb0[kids[upto - 2] as int].bounds;
            saturate(above.y + above.height)
        };
        if upto > 1 {
            doc.lemma_child_is_below(node, k - 1);
            assert(doc.is_ancestor_or_self(roots[k - 1], roots[k - 1]));
            assert(within_any(doc, roots, k, kids[k - 1] as int));
        }
        assert(top_a == top_b);
        assert forall|m: int|
            0 <= m < doc.len() && #[trigger] doc.is_ancestor_or_self(c, m) implies ea0[m] == pa[m]
            && eb0[m] == pb[m] && matched(doc, rules, pa, pb, m) by {
            doc.lemma_below_child(node, kids[k], m);
            assert(below(doc, node, m));
            if within_any(doc, roots, k, m) {
                let w = choose|w: int| 0 <= w < k && #[trigger] doc.is_ancestor_or_self(roots[w], m);
                doc.lemma_child_is_below(node, w);
                assert(kids[w] != kids[k]);
                doc.lemma_siblings_apart(node, kids[k], kids[w], m);
            }
        }
        assert(doc.is_ancestor_or_self(c, c));
        assert(matched(doc, rules, pa, pb, c));
        assert(settled(doc, rules, ea0[c], eb0[c], c));
        assert forall|m: int| #[trigger] below(doc, c, m) implies ea0[m] == pa[m] && eb0[m]
            == pb[m] by {
            assert(doc.is_ancestor_or_self(c, m));
        }
        assert forall|m: int| #[trigger] below(doc, c, m) implies matched(doc, rules, pa, pb, m) by {
            assert(doc.is_ancestor_or_self(c, m));
        }
        assert(alike(doc, rules, pa[c], ea0[c], c));
        lemma_matched_carries(doc, rules, pa, pb, ea0, eb0, c);
        assert(ready(doc, rules, ea0, eb0, c));
        lemma_same_layout(doc, rules, ea0, eb0, c, x, top_a);
        lemma_layout_node_frame(doc, rules, ea0, c, x, top_a);
        lemma_layout_node_frame(doc, rules, eb0, c, x, top_a);
        assert forall|m: int|
            0 <= m < doc.len() && within_any(doc, roots, upto, m) implies eb[m] == ea[m] by {
            if !doc.is_ancestor_or_self(c, m) {
                let w = choose|w: int|
                    0 <= w < upto && #[trigger] doc.is_ancestor_or_self(roots[w], m);
                assert(w != k);
                assert(doc.is_ancestor_or_self(roots[w], m));
                assert(within_any(doc, roots, k, m));
            }
        }
    }
}

/// The records that the layout of a subtree leaves are ready to give the
/// same layout again.
pub proof fn lemma_layout_settles(
    doc: Document,
    rules: Seq<Rule>,
    a: Seq<LayoutRecord>,
    node: int,
    x: int,
    y: int,
)
    requires
        doc.wf(),
        0 <= node < doc.len(),
        a.len() == doc.len(),
    ensures
        ready(doc, rules, a, layout_node_spec(doc, rules, a, node, x, y), node),
    decreases doc.rank@[node], 2int, 0int,
{
    let style = own_style(doc, rules, a[node], node);
    let record = placed_record(doc.nodes@[node], a[node], style, x, y);
    let pa = a.update(node, record);
    let out = layout_node_spec(doc, rules, a, node, x, y);
    let kids = doc.nodes@[node].children@;
    lemma_layout_node_frame(doc, rules, a, node, x, y);
    lemma_resolve_absorbs(doc.nodes@[node], rules, a[node].style, a[node].style, style);
    assert(alike(doc, rules, a[node], pa[node], node)) by {
        assert forall|f: Style| #[trigger]
            resolved_style(doc.nodes@[node], rules, a[node].style, f) == resolved_style(
                doc.nodes@[node],
                rules,
                pa[node].style,
                f,
            ) by {
            lemma_resolve_absorbs(doc.nodes@[node], rules, a[node].style, a[node].style, f);
        }
    }
    assert(own_style(doc, rules, pa[node], node) == style);
    assert(settled(doc, rules, a[node], pa[node], node));
    if kids.len() == 0 {
        assert forall|m: int| #[trigger] below(doc, node, m) implies matched(
            doc,
            rules,
            a,
            out,
            m,
        ) by {
            let c = doc.lemma_below_some_child(node, m);
        }
    } else {
        lemma_flexes_alike(doc, rules, a[node], pa[node], node);
        if style.display == Some(Display::Flex) {
            let fresh = flex_items(doc, rules, pa, node, style);
            let c = FlexContainer::of(pa[node].bounds, style);
            let items = sized_items(fresh, c);
            let rects = flex_rects(fresh, c);
            lemma_items_fit(doc, rules, pa, node, style);
            lemma_items_settle(doc, rules, pa, node, items, rects, items.len() as int);
            lemma_apply_items_frame(doc, rules, pa, node, items, rects, items.len() as int);
            assert(out[node] == pa[node]) by {
                if within_any(doc, item_nodes(items), items.len() as int, node) {
                    let k = choose|k: int|
                        0 <= k < items.len() && #[trigger] doc.is_ancestor_or_self(
                            item_nodes(items)[k],
                            node,
                        );
                    doc.lemma_below_child(node, items[k].node, node);
                }
            }
        } else {
            lemma_block_settles(
                doc,
                rules,
                pa,
                node,
                record.bounds.x as int,
                record.bounds.y as int,
                kids.len() as int,
            );
            lemma_block_children_frame(
                doc,
                rules,
                pa,
                node,
                record.bounds.x as int,
                record.bounds.y as int,
                kids.len() as int,
            );
            assert(out[node] == pa[node]) by {
                if within_any(doc, child_nodes(doc, node), kids.len() as int, node) {
                    let k = choose|k: int|
                        0 <= k < kids.len() && #[trigger] doc.is_ancestor_or_self(
                            child_nodes(doc, node)[k],
                            node,
                        );
                    doc.lemma_child_is_below(node, k);
                    doc.lemma_below_child(node, kids[k], node);
                }
            }
        }
        assert forall|m: int| #[trigger] below(doc, node, m) implies a[m] == pa[m] && out[m]
            == out[m] by {}
        assert(alike(doc, rules, pa[node], a[node], node));
        lemma_matched_carries(doc, rules, pa, out, a, out, node);
    }
}

/// After any number of items is applied, the records match the records
/// before at every node below the container.
pub proof fn lemma_items_settle(
    doc: Document,
    rules: Seq<Rule>,
    pa: Seq<LayoutRecord>,
    node: int,
    items: Seq<FlexItem>,
    rects: Seq<Rect>,
    upto: int,
)
    requires
        doc.wf(),
        0 <= node < doc.len(),
        pa.len() == doc.len(),
        flexes(doc, rules, pa[node], node),
        0 <= upto <= items.len(),
        nodes_among(items, doc.nodes@[node].children@),
        nodes_distinct(items),
        items_alike(doc, rules, pa, items),
        crate::flex_items::all_take_part(doc, items),
    ensures
        apply_items_spec(doc, rules, pa, node, items, rects, upto).len() == doc.len(),
        forall|m: int| #[trigger]
            below(doc, node, m) ==> matched(
                doc,
                rules,
                pa,
                apply_items_spec(doc, rules, pa, node, items, rects, upto),
                m,
            ),
    decreases doc.rank@[node], 0int, upto,
{
    lemma_apply_items_frame(doc, rules, pa, node, items, rects, upto);
    if upto > 0 {
        let k = upto - 1;
        lemma_items_settle(doc, rules, pa, node, items, rects, k);
        lemma_apply_items_frame(doc, rules, pa, node, items, rects, k);
        let e0 = apply_items_spec(doc, rules, pa, node, items, rects, k);
        let e = apply_items_spec(doc, rules, pa, node, items, rects, upto);
        let item = items[k];
        let rect = rects[k];
        let c = item.node as int;
        let kids = doc.nodes@[node].children@;
        assert(kids.contains(item.node));
        let j = choose|j: int| 0 <= j < kids.len() && kids[j] == item.node;
        doc.lemma_child_is_below(node, j);
        let written = LayoutRecord { bounds: rect, style: item.style };
        let wa = e0.update(c, written);
        lemma_layout_settles(doc, rules, wa, c, rect.x as int, rect.y as int);
        lemma_layout_node_frame(doc, rules, wa, c, rect.x as int, rect.y as int);
        let la = layout_node_spec(doc, rules, wa, c, rect.x as int, rect.y as int);
        assert(alike(doc, rules, pa[c], styled(item.style), c));
        assert(alike(doc, rules, wa[c], pa[c], c)) by {
            assert forall|f: Style| #[trigger]
                resolved_style(doc.nodes@[c], rules, wa[c].style, f) == resolved_style(
                    doc.nodes@[c],
                    rules,
                    pa[c].style,
                    f,
                ) by {
                assert(resolved_style(doc.nodes@[c], rules, pa[c].style, f) == resolved_style(
                    doc.nodes@[c],
                    rules,
                    styled(item.style).style,
                    f,
                ));
            }
        }
        assert forall|m: int| #[trigger] below(doc, c, m) implies pa[m] == wa[m] && e[m]
            == la[m] by {
            lemma_untouched(doc, node, items, k, k, m);
        }
        lemma_matched_carries(doc, rules, wa, la, pa, e, c);
        assert forall|m: int| #[trigger] below(doc, node, m) implies matched(
            doc,
            rules,
            pa,
            e,
            m,
        ) by {
            assert(matched(doc, rules, pa, e0, m));
            if doc.is_ancestor_or_self(c, m) {
                if m == c {
                    assert(e[c].style == item.style);
                    assert(alike(doc, rules, pa[c], e[c], c)) by {
                        assert forall|f: Style| #[trigger]
                            resolved_style(doc.nodes@[c], rules, pa[c].style, f)
                                == resolved_style(doc.nodes@[c], rules, e[c].style, f) by {
                            assert(resolved_style(doc.nodes@[c], rules, pa[c].style, f)
                                == resolved_style(
                                doc.nodes@[c],
                                rules,
                                styled(item.style).style,
                                f,
                            ));
                        }
                    }
                    assert(participates(doc.nodes@[items[k].node as int]));
                } else {
                    assert(below(doc, c, m));
                }
            } else {
                assert(la[m] == wa[m]);
                assert(e[m] == e0[m]);
            }
        }
    } else {
        assert forall|m: int| #[trigger] below(doc, node, m) implies matched(
            doc,
            rules,
            pa,
            pa,
            m,
        ) by {}
    }
}

/// After any number of children of a block container is laid out, the
/// records match the records before at every node below the container.
pub proof fn lemma_block_settles(
    doc: Document,
    rules: Seq<Rule>,
    pa: Seq<LayoutRecord>,
    node: int,
    x: int,
    y: int,
    upto: int,
)
    requires
        doc.wf(),
        0 <= node < doc.len(),
        pa.len() == doc.len(),
        !flexes(doc, rules, pa[node], node),
        0 <= upto <= doc.nodes@[node].children@.len(),
    ensures
        block_children_spec(doc, rules, pa, node, x, y, upto).len() == doc.len(),
        forall|m: int| #[trigger]
            below(doc, node, m) ==> matched(
                doc,
                rules,
                pa,
                block_children_spec(doc, rules, pa, node, x, y, upto),
                m,
            ),
    decreases doc.rank@[node], 0int, upto,
{
    lemma_block_children_frame(doc, rules, pa, node, x, y, upto);
    if upto > 0 {
        let k = upto - 1;
        lemma_block_settles(doc, rules, pa, node, x, y, k);
        lemma_block_children_frame(doc, rules, pa, node, x, y, k);
        let e0 = block_children_spec(doc, rules, pa, node, x, y, k);
        let e = block_children_spec(doc, rules, pa, node, x, y, upto);
        let kids = doc.nodes@[node].children@;
        let roots = child_nodes(doc, node);
        let c = kids[k] as int;
        doc.lemma_child_is_below(node, k);
        let top = if upto == 1 {
            y
        } else {
            let above = e0[kids[upto - 2] as int].bounds;
            saturate(above.y + above.height)
        };
        lemma_layout_settles(doc, rules, e0, c, x, top);
        lemma_layout_node_frame(doc, rules, e0, c, x, top);
        assert forall|m: int|
            0 <= m < doc.len() && #[trigger] doc.is_ancestor_or_self(c, m) implies e0[m]
            == pa[m] by {
            if within_any(doc, roots, k, m) {
                let w = choose|w: int| 0 <= w < k && #[trigger] doc.is_ancestor_or_self(roots[w], m);
                doc.lemma_child_is_below(node, w);
                assert(kids[w] != kids[k]);
                doc.lemma_siblings_apart(node, kids[k], kids[w], m);
            }
        }
        assert(doc.is_ancestor_or_self(c, c));
        assert forall|m: int| #[trigger] below(doc, c, m) implies pa[m] == e0[m] && e[m]
            == e[m] by {
            assert(doc.is_ancestor_or_self(c, m));
        }
        assert(alike(doc, rules, e0[c], pa[c], c));
        lemma_matched_carries(doc, rules, e0, e, pa, e, c);
        assert forall|m: int| #[trigger] below(doc, node, m) implies matched(
            doc,
            rules,
            pa,
            e,
            m,
        ) by {
            assert(matched(doc, rules, pa, e0, m));
            if doc.is_ancestor_or_self(c, m) {
                if m == c {
                    assert(settled(doc, rules, e0[c], e[c], c));
                } else {
                    assert(below(doc, c, m));
                }
            } else {
                assert(e[m] == e0[m]);
            }
        }
    } else {
        assert forall|m: int| #[trigger] below(doc, node, m) implies matched(
            doc,
            rules,
            pa,
            pa,
            m,
        ) by {}
    }
}

/// Layout is idempotent: laying out a subtree that was just laid out, at
/// the same place, changes no record.
pub proof fn lemma_layout_twice(
    doc: Document,
    rules: Seq<Rule>,
    layouts: Seq<LayoutRecord>,
    node: int,
    x: int,
    y: int,
)
    requires
        doc.wf(),
        0 <= node < doc.len(),
        layouts.len() == doc.len(),
    ensures
        layout_node_spec(doc, rules, layout_node_spec(doc, rules, layouts, node, x, y), node, x, y)
            == layout_node_spec(doc, rules, layouts, node, x, y),
{
    let once = layout_node_spec(doc, rules, layouts, node, x, y);
    let twice = layout_node_spec(doc, rules, once, node, x, y);
    lemma_layout_settles(doc, rules, layouts, node, x, y);
    lemma_same_layout(doc, rules, layouts, once, node, x, y);
    lemma_layout_node_frame(doc, rules, once, node, x, y);
    assert(twice =~= once);
}

} // verus!
