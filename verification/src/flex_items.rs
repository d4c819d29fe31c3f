//! The items of a flex container: which children take part, their resolved
//! styles, their base sizes, and their order.

use vstd::prelude::*;
use crate::document::{attribute_value, find_attribute, Document, Node};
use crate::flex_layout::{axis_dimension, is_row, Axis};
use crate::flex_lines::FlexItem;
use crate::layout::LayoutRecord;
use crate::style::{FlexDirection, Length, Rule, Selector, Style, StyleSheet};
use crate::text::{contains_token, has_token, is_blank, text_is_blank};

verus! {

/// The width given to a box whose style sets none, or none above 0.
pub const DEFAULT_WIDTH: u32 = 100;

/// The height given to a box whose style sets none, or none above 0.
pub const DEFAULT_HEIGHT: u32 = 30;

/// Whether a rule applies to a box with the given `class` attribute: the
/// rule's class is one of the names that the attribute lists.
pub open spec fn rule_matches(rule: Rule, classes: Seq<char>) -> bool {
    match rule.selector {
        Selector::Class(name) => has_token(classes, name@),
    }
}

/// A style after the rules that match the given `class` attribute, each
/// merged in the order of the rule list, so that the last matching rule
/// wins.
pub open spec fn apply_rules(style: Style, rules: Seq<Rule>, classes: Seq<char>) -> Style
    decreases rules.len(),
{
    if rules.len() == 0 {
        style
    } else {
        let earlier = apply_rules(style, rules.drop_last(), classes);
        if rule_matches(rules.last(), classes) {
            earlier.merged_all(rules.last().declarations@)
        } else {
            earlier
        }
    }
}

/// The effective style of a node: its cached style, then the rules that
/// match its classes; a node with neither attributes nor children takes
/// its `display` from the fallback style.
pub open spec fn resolved_style(node: Node, rules: Seq<Rule>, cached: Style, fallback: Style) -> Style {
    let styled = match attribute_value(node.attributes@, "class"@) {
        Some(classes) => apply_rules(cached, rules, classes),
        None => cached,
    };
    if node.attributes@.len() == 0 && node.children@.len() == 0 {
        Style { display: fallback.display, ..styled }
    } else {
        styled
    }
}

/// Resolves the effective style of a node.
pub fn resolve_style(
    doc: &Document,
    sheet: &StyleSheet,
    layouts: &Vec<LayoutRecord>,
    node: usize,
    fallback: &Style,
) -> (style: Style)
    requires
        node < doc.len(),
        layouts.len() == doc.len(),
    ensures
        style == resolved_style(
            doc.nodes@[node as int],
            sheet.rules@,
            layouts@[node as int].style,
            *fallback,
        ),
{
    let mut style = layouts[node].style;
    let attributes = &doc.nodes[node].attributes;
    match find_attribute(attributes, "class") {
        Some(at) => {
            let classes = attributes[at].value.as_str();
            let ghost cached = style;
            let mut r: usize = 0;
            while r < sheet.rules.len()
                invariant
                    r <= sheet.rules.len(),
                    style == apply_rules(cached, sheet.rules@.take(r as int), classes@),
                decreases sheet.rules.len() - r,
            {
                assert(sheet.rules@.take(r + 1).drop_last() == sheet.rules@.take(r as int));
                let rule = &sheet.rules[r];
                let matches = match &rule.selector {
                    Selector::Class(name) => contains_token(classes, name.as_str()),
                };
                if matches {
                    style.merge_all(&rule.declarations);
                }
                r = r + 1;
            }
            assert(sheet.rules@.take(r as int) == sheet.rules@);
        },
        None => {},
    }
    if attributes.is_empty() && doc.nodes[node].children.is_empty() {
        style.display = fallback.display;
    }
    style
}

/// The size of a box along one dimension: the length its style sets, if
/// that is above 0, else the given default.
pub open spec fn physical_size(length: Option<Length>, fallback: u32) -> u32 {
    match length {
        Some(l) => if l.px() > 0 {
            l.px() as u32
        } else {
            fallback
        },
        None => fallback,
    }
}

/// The size of a box with the given style along an axis of `direction`.
pub open spec fn physical_axis_size(style: Style, direction: FlexDirection, axis: Axis) -> u32 {
    if crate::flex_layout::is_horizontal(direction, axis) {
        physical_size(style.width, DEFAULT_WIDTH)
    } else {
        physical_size(style.height, DEFAULT_HEIGHT)
    }
}

/// The largest main-axis size among the first `upto` children of a node,
/// each child's style resolved with the node's style as fallback; 0 for no
/// children.
pub open spec fn intrinsic_main(
    doc: Document,
    rules: Seq<Rule>,
    layouts: Seq<LayoutRecord>,
    node: int,
    direction: FlexDirection,
    fallback: Style,
    upto: int,
) -> u32
    decreases upto,
{
    if upto <= 0 {
        0
    } else {
        let child = doc.nodes@[node].children@[upto - 1] as int;
        let size = physical_axis_size(
            resolved_style(doc.nodes@[child], rules, layouts[child].style, fallback),
            direction,
            Axis::Main,
        );
        let before = intrinsic_main(doc, rules, layouts, node, direction, fallback, upto - 1);
        if size > before {
            size
        } else {
            before
        }
    }
}

/// Whether shrink-to-fit sizing applies to an item: it has children, its
/// style sets no explicit main length and no `flex-basis`, and its main
/// size would otherwise be the default.
pub open spec fn shrinks_to_fit(node: Node, style: Style, direction: FlexDirection) -> bool {
    let main = axis_dimension(style, direction, Axis::Main);
    &&& node.children@.len() > 0
    &&& !(main is Some && main->0 is Px)
    &&& style.flex_basis is None
    &&& !(main is Some && main->0.px() > 0)
}

/// The base main size and the base cross size of an item. The main size is
/// the `flex-basis` if that is a length, else the item's size along the
/// main axis; a container that shrinks to fit takes the largest main size
/// of its children instead.
pub open spec fn base_sizes(
    doc: Document,
    rules: Seq<Rule>,
    layouts: Seq<LayoutRecord>,
    node: int,
    style: Style,
    direction: FlexDirection,
) -> (u32, u32) {
    let from_size = physical_axis_size(style, direction, Axis::Main);
    let main = match style.flex_basis {
        Some(Length::Px(v)) => v,
        Some(Length::Auto) => from_size,
        None => from_size,
    };
    let intrinsic = intrinsic_main(
        doc,
        rules,
        layouts,
        node,
        direction,
        style,
        doc.nodes@[node].children@.len() as int,
    );
    (
        if shrinks_to_fit(doc.nodes@[node], style, direction) && intrinsic > 0 {
            intrinsic
        } else {
            main
        },
        physical_axis_size(style, direction, Axis::Cross),
    )
}

fn size_or(length: Option<Length>, fallback: u32) -> (size: u32)
    ensures
        size == physical_size(length, fallback),
{
    match length {
        Some(l) => {
            let px = l.to_px();
            if px > 0 {
                px
            } else {
                fallback
            }
        },
        None => fallback,
    }
}

fn row_like(direction: &FlexDirection) -> (row: bool)
    ensures
        row == is_row(*direction),
{
    match direction {
        FlexDirection::Row | FlexDirection::RowReverse => true,
        FlexDirection::Column | FlexDirection::ColumnReverse => false,
    }
}

/// The largest main-axis size among the children of a node; 0 if it has
/// none.
pub fn intrinsic_main_from_children(
    doc: &Document,
    sheet: &StyleSheet,
    layouts: &Vec<LayoutRecord>,
    node: usize,
    parent_direction: &FlexDirection,
    fallback: &Style,
) -> (size: u32)
    requires
        doc.wf(),
        node < doc.len(),
        layouts.len() == doc.len(),
    ensures
        size == intrinsic_main(
            *doc,
            sheet.rules@,
            layouts@,
            node as int,
            *parent_direction,
            *fallback,
            doc.nodes@[node as int].children@.len() as int,
        ),
{
    let row = row_like(parent_direction);
    let children = &doc.nodes[node].children;
    let mut largest: u32 = 0;
    let mut k: usize = 0;
    while k < children.len()
        invariant
            doc.wf(),
            node < doc.len(),
            layouts.len() == doc.len(),
            children == doc.nodes@[node as int].children,
            row == is_row(*parent_direction),
            k <= children.len(),
            largest == intrinsic_main(
                *doc,
                sheet.rules@,
                layouts@,
                node as int,
                *parent_direction,
                *fallback,
                k as int,
            ),
        decreases children.len() - k,
    {
        let child = children[k];
        assert(doc.is_child_edge(node as int, doc.nodes@[node as int].children@[k as int] as int));
        let style = resolve_style(doc, sheet, layouts, child, fallback);
        let size = if row {
            size_or(style.width, DEFAULT_WIDTH)
        } else {
            size_or(style.height, DEFAULT_HEIGHT)
        };
        if size > largest {
            largest = size;
        }
        k = k + 1;
    }
    largest
}

/// The base main size and the base cross size of an item.
pub fn base_sizes_for_item(
    doc: &Document,
    sheet: &StyleSheet,
    layouts: &Vec<LayoutRecord>,
    node: usize,
    style: &Style,
    direction: &FlexDirection,
) -> (sizes: (u32, u32))
    requires
        doc.wf(),
        node < doc.len(),
        layouts.len() == doc.len(),
    ensures
        sizes == base_sizes(*doc, sheet.rules@, layouts@, node as int, *style, *direction),
{
    let row = row_like(direction);
    let width = size_or(style.width, DEFAULT_WIDTH);
    let height = size_or(style.height, DEFAULT_HEIGHT);
    let (main_from_size, cross_from_size) = if row {
        (width, height)
    } else {
        (height, width)
    };
    let mut main = match style.flex_basis {
        Some(Length::Px(px)) => px,
        Some(Length::Auto) => main_from_size,
        None => main_from_size,
    };
    let main_dimension = if row {
        style.width
    } else {
        style.height
    };
    let is_container = !doc.nodes[node].children.is_empty();
    let has_explicit_main = match main_dimension {
        Some(Length::Px(_)) => true,
        _ => false,
    };
    if is_container && !has_explicit_main && style.flex_basis.is_none() {
        let main_was_default = match main_dimension {
            Some(l) => l.to_px() == 0,
            None => true,
        };
        let intrinsic = intrinsic_main_from_children(doc, sheet, layouts, node, direction, style);
        if intrinsic > 0 && main_was_default {
            main = intrinsic;
        }
    }
    (main, cross_from_size)
}

/// A node looks like text if it carries text and has neither attributes
/// nor children.
pub open spec fn is_text_item(node: Node) -> bool {
    node.text is Some && node.attributes@.len() == 0 && node.children@.len() == 0
}

/// A child takes part in flex layout unless it looks like text and its
/// text is blank.
pub open spec fn participates(node: Node) -> bool {
    !(is_text_item(node) && is_blank(node.text->0@))
}

/// Whether a child takes part in flex layout.
pub fn is_participant(node: &Node) -> (takes_part: bool)
    ensures
        takes_part == participates(*node),
{
    match &node.text {
        Some(text) => {
            if node.attributes.is_empty() && node.children.is_empty() {
                !text_is_blank(text.as_str())
            } else {
                true
            }
        },
        None => true,
    }
}

/// The place of an item in the visual order; 0 where `order` is unset.
pub open spec fn order_of(item: FlexItem) -> int {
    match item.style.order {
        Some(o) => o as int,
        None => 0,
    }
}

/// Where an item of the given order goes into a list: behind the last
/// item whose order is not greater.
pub open spec fn insert_position(items: Seq<FlexItem>, order: int) -> int
    decreases items.len(),
{
    if items.len() == 0 || order_of(items.last()) <= order {
        items.len() as int
    } else {
        insert_position(items.drop_last(), order)
    }
}

/// The list with one more item, put at its place in the visual order.
pub open spec fn insert_by_order(items: Seq<FlexItem>, item: FlexItem) -> Seq<FlexItem> {
    items.insert(insert_position(items, order_of(item)), item)
}

/// The items in visual order: by ascending `order`, and items of equal
/// order in the order they come in.
pub open spec fn sort_by_order(items: Seq<FlexItem>) -> Seq<FlexItem>
    decreases items.len(),
{
    if items.len() == 0 {
        items
    } else {
        insert_by_order(sort_by_order(items.drop_last()), items.last())
    }
}

/// The fresh flex item for a child of a container with the given style.
pub open spec fn item_for(
    doc: Document,
    rules: Seq<Rule>,
    layouts: Seq<LayoutRecord>,
    child: int,
    container_style: Style,
    direction: FlexDirection,
) -> FlexItem {
    let style = resolved_style(doc.nodes@[child], rules, layouts[child].style, container_style);
    let sizes = base_sizes(doc, rules, layouts, child, style, direction);
    FlexItem::fresh(child as usize, style, sizes.0, sizes.1)
}

/// The items for the first `upto` children of a container, in child
/// order: one for each child that takes part.
pub open spec fn participants(
    doc: Document,
    rules: Seq<Rule>,
    layouts: Seq<LayoutRecord>,
    container: int,
    container_style: Style,
    direction: FlexDirection,
    upto: int,
) -> Seq<FlexItem>
    decreases upto,
{
    if upto <= 0 {
        Seq::empty()
    } else {
        let earlier = participants(
            doc,
            rules,
            layouts,
            container,
            container_style,
            direction,
            upto - 1,
        );
        let child = doc.nodes@[container].children@[upto - 1] as int;
        if participates(doc.nodes@[child]) {
            earlier.push(item_for(doc, rules, layouts, child, container_style, direction))
        } else {
            earlier
        }
    }
}

/// The flex items of a container, in visual order.
pub open spec fn flex_items(
    doc: Document,
    rules: Seq<Rule>,
    layouts: Seq<LayoutRecord>,
    container: int,
    container_style: Style,
) -> Seq<FlexItem> {
    sort_by_order(
        participants(
            doc,
            rules,
            layouts,
            container,
            container_style,
            crate::flex_place::direction_of(container_style),
            doc.nodes@[container].children@.len() as int,
        ),
    )
}

/// There are no more participants than children.
pub proof fn lemma_participants_len(
    doc: Document,
    rules: Seq<Rule>,
    layouts: Seq<LayoutRecord>,
    container: int,
    container_style: Style,
    direction: FlexDirection,
    upto: int,
)
    requires
        0 <= upto,
    ensures
        participants(doc, rules, layouts, container, container_style, direction, upto).len()
            <= upto,
    decreases upto,
{
    if upto > 0 {
        lemma_participants_len(doc, rules, layouts, container, container_style, direction, upto - 1);
    }
}

/// Sorting keeps the number of items.
pub proof fn lemma_sort_len(items: Seq<FlexItem>)
    ensures
        sort_by_order(items).len() == items.len(),
    decreases items.len(),
{
    if items.len() > 0 {
        lemma_sort_len(items.drop_last());
        lemma_insert_position_range(sort_by_order(items.drop_last()), order_of(items.last()));
    }
}

/// An item goes somewhere into the list or behind it.
pub proof fn lemma_insert_position_range(items: Seq<FlexItem>, order: int)
    ensures
        0 <= insert_position(items, order) <= items.len(),
    decreases items.len(),
{
    if items.len() > 0 && order_of(items.last()) > order {
        lemma_insert_position_range(items.drop_last(), order);
    }
}

fn item_order(item: &FlexItem) -> (order: i32)
    ensures
        order == order_of(*item),
{
    match item.style.order {
        Some(o) => o,
        None => 0,
    }
}

/// Puts an item at its place in the visual order.
pub fn insert_item(items: &mut Vec<FlexItem>, item: FlexItem)
    ensures
        final(items)@ == insert_by_order(old(items)@, item),
{
    let order = item_order(&item);
    let mut at: usize = items.len();
    assert(items@.take(at as int) =~= items@);
    while at > 0 && item_order(&items[at - 1]) > order
        invariant
            at <= items.len(),
            items@ == old(items)@,
            insert_position(items@, order as int) == insert_position(
                items@.take(at as int),
                order as int,
            ),
        decreases at,
    {
        assert(items@.take(at as int).drop_last() =~= items@.take(at - 1));
        at = at - 1;
    }
    proof {
        assert(items@.take(items@.len() as int) == items@);
        if at > 0 {
            assert(items@.take(at as int).last() == items@[at - 1]);
        }
    }
    items.insert(at, item);
}

/// Collects the flex items of a container: drops the children that do not
/// take part, resolves the style and the base sizes of the others, and
/// puts them in visual order.
pub fn collect_flex_items(
    doc: &Document,
    sheet: &StyleSheet,
    layouts: &Vec<LayoutRecord>,
    container: usize,
    container_style: &Style,
) -> (items: Vec<FlexItem>)
    requires
        doc.wf(),
        container < doc.len(),
        layouts.len() == doc.len(),
    ensures
        items@ == flex_items(*doc, sheet.rules@, layouts@, container as int, *container_style),
        items.len() <= doc.nodes@[container as int].children@.len() <= crate::document::MAX_NODES,
        in_visual_order(items@),
        nodes_among(items@, doc.nodes@[container as int].children@),
        all_take_part(*doc, items@),
{
    let direction = match container_style.flex_direction {
        Some(d) => d,
        None => FlexDirection::Row,
    };
    let children = &doc.nodes[container].children;
    let mut items: Vec<FlexItem> = Vec::new();
    let mut k: usize = 0;
    while k < children.len()
        invariant
            doc.wf(),
            container < doc.len(),
            layouts.len() == doc.len(),
            children == doc.nodes@[container as int].children,
            direction == crate::flex_place::direction_of(*container_style),
            k <= children.len(),
            items@ == sort_by_order(
                participants(
                    *doc,
                    sheet.rules@,
                    layouts@,
                    container as int,
                    *container_style,
                    direction,
                    k as int,
                ),
            ),
        decreases children.len() - k,
    {
        let child = children[k];
        assert(doc.is_child_edge(
            container as int,
            doc.nodes@[container as int].children@[k as int] as int,
        ));
        let ghost earlier = participants(
            *doc,
            sheet.rules@,
            layouts@,
            container as int,
            *container_style,
            direction,
            k as int,
        );
        if is_participant(&doc.nodes[child]) {
            let style = resolve_style(doc, sheet, layouts, child, container_style);
            let (base_main, base_cross) = base_sizes_for_item(
                doc,
                sheet,
                layouts,
                child,
                &style,
                &direction,
            );
            let item = FlexItem::new(child, style, base_main, base_cross);
            assert(earlier.push(item).drop_last() == earlier);
            insert_item(&mut items, item);
        }
        k = k + 1;
    }
    proof {
        let all = participants(
            *doc,
            sheet.rules@,
            layouts@,
            container as int,
            *container_style,
            direction,
            children@.len() as int,
        );
        lemma_participants_len(
            *doc,
            sheet.rules@,
            layouts@,
            container as int,
            *container_style,
            direction,
            children@.len() as int,
        );
        lemma_sort_len(all);
        lemma_sort_by_order(all);
        lemma_flex_items_are_children(
            *doc,
            sheet.rules@,
            layouts@,
            container as int,
            *container_style,
        );
        lemma_items_take_part(*doc, sheet.rules@, layouts@, container as int, *container_style);
        doc.lemma_children_count(container as int);
    }
    items
}

/// Every item stands for one of the given nodes.
pub open spec fn nodes_among(items: Seq<FlexItem>, nodes: Seq<usize>) -> bool {
    forall|k: int| 0 <= k < items.len() ==> nodes.contains((#[trigger] items[k]).node)
}

/// Sorting changes no item, so it keeps what the items stand for.
pub proof fn lemma_sort_nodes_among(items: Seq<FlexItem>, nodes: Seq<usize>)
    requires
        nodes_among(items, nodes),
    ensures
        nodes_among(sort_by_order(items), nodes),
    decreases items.len(),
{
    if items.len() > 0 {
        let earlier = sort_by_order(items.drop_last());
        assert(nodes_among(items.drop_last(), nodes)) by {
            assert forall|k: int| 0 <= k < items.drop_last().len() implies nodes.contains(
                (#[trigger] items.drop_last()[k]).node,
            ) by {
                assert(items.drop_last()[k] == items[k]);
            }
        }
        lemma_sort_nodes_among(items.drop_last(), nodes);
        let at = insert_position(earlier, order_of(items.last()));
        lemma_insert_position_range(earlier, order_of(items.last()));
        let sorted = earlier.insert(at, items.last());
        assert forall|k: int| 0 <= k < sorted.len() implies nodes.contains(
            (#[trigger] sorted[k]).node,
        ) by {
            if k < at {
                assert(sorted[k] == earlier[k]);
            } else if k == at {
                assert(sorted[k] == items[items.len() - 1]);
            } else {
                assert(sorted[k] == earlier[k - 1]);
            }
        }
    }
}

/// Every flex item of a container stands for one of its children.
pub proof fn lemma_flex_items_are_children(
    doc: Document,
    rules: Seq<Rule>,
    layouts: Seq<LayoutRecord>,
    container: int,
    container_style: Style,
)
    ensures
        nodes_among(
            flex_items(doc, rules, layouts, container, container_style),
            doc.nodes@[container].children@,
        ),
{
    let direction = crate::flex_place::direction_of(container_style);
    let children = doc.nodes@[container].children@;
    lemma_participants_are_children(
        doc,
        rules,
        layouts,
        container,
        container_style,
        direction,
        children.len() as int,
    );
    lemma_sort_nodes_among(
        participants(
            doc,
            rules,
            layouts,
            container,
            container_style,
            direction,
            children.len() as int,
        ),
        children,
    );
}

proof fn lemma_participants_are_children(
    doc: Document,
    rules: Seq<Rule>,
    layouts: Seq<LayoutRecord>,
    container: int,
    container_style: Style,
    direction: FlexDirection,
    upto: int,
)
    requires
        0 <= upto <= doc.nodes@[container].children@.len(),
    ensures
        nodes_among(
            participants(doc, rules, layouts, container, container_style, direction, upto),
            doc.nodes@[container].children@,
        ),
    decreases upto,
{
    if upto > 0 {
        lemma_participants_are_children(
            doc,
            rules,
            layouts,
            container,
            container_style,
            direction,
            upto - 1,
        );
        let children = doc.nodes@[container].children@;
        assert(children.contains(children[upto - 1]));
    }
}

/// The items stand in visual order: no item has a greater `order` than an
/// item behind it.
pub open spec fn in_visual_order(items: Seq<FlexItem>) -> bool {
    forall|i: int, j: int|
        0 <= i < j < items.len() ==> order_of(#[trigger] items[i]) <= order_of(#[trigger] items[j])
}

/// The test for an item's `order`.
pub open spec fn has_order(order: int) -> spec_fn(FlexItem) -> bool {
    |item: FlexItem| order_of(item) == order
}

/// The items of the given `order`, in the order they stand in.
pub open spec fn of_order(items: Seq<FlexItem>, order: int) -> Seq<FlexItem> {
    items.filter(has_order(order))
}

/// Behind the place where an item of the given order goes, every item has
/// a greater order; the item just before that place has not.
pub proof fn lemma_insert_position(items: Seq<FlexItem>, order: int)
    ensures
        0 <= insert_position(items, order) <= items.len(),
        forall|k: int|
            insert_position(items, order) <= k < items.len() ==> order_of(#[trigger] items[k])
                > order,
        insert_position(items, order) > 0 ==> order_of(
            items[insert_position(items, order) - 1],
        ) <= order,
    decreases items.len(),
{
    if items.len() > 0 && order_of(items.last()) > order {
        lemma_insert_position(items.drop_last(), order);
        let at = insert_position(items.drop_last(), order);
        assert forall|k: int| at <= k < items.len() implies order_of(#[trigger] items[k])
            > order by {
            if k < items.len() - 1 {
                assert(items.drop_last()[k] == items[k]);
            }
        }
        if at > 0 {
            assert(items.drop_last()[at - 1] == items[at - 1]);
        }
    }
}

proof fn lemma_of_order_none(items: Seq<FlexItem>, order: int)
    requires
        forall|k: int| 0 <= k < items.len() ==> order_of(#[trigger] items[k]) != order,
    ensures
        of_order(items, order) == Seq::<FlexItem>::empty(),
    decreases items.len(),
{
    if items.len() == 0 {
        assert(items.filter(has_order(order)).len() <= items.len()) by {
            items.lemma_filter_len(has_order(order));
        }
        assert(of_order(items, order) =~= Seq::<FlexItem>::empty());
    } else {
        let rest = items.drop_last();
        assert forall|k: int| 0 <= k < rest.len() implies order_of(#[trigger] rest[k])
            != order by {
            assert(rest[k] == items[k]);
        }
        lemma_of_order_none(rest, order);
        assert(items =~= rest.push(items.last()));
        rest.lemma_filter_push(items.last(), has_order(order));
        assert(!has_order(order)(items.last()));
    }
}

proof fn lemma_insert_of_order(items: Seq<FlexItem>, item: FlexItem, order: int)
    requires
        in_visual_order(items),
    ensures
        of_order(insert_by_order(items, item), order) == (if order_of(item) == order {
            of_order(items, order).push(item)
        } else {
            of_order(items, order)
        }),
{
    let at = insert_position(items, order_of(item));
    lemma_insert_position(items, order_of(item));
    let front = items.subrange(0, at);
    let back = items.subrange(at, items.len() as int);
    let test = has_order(order);
    assert(items =~= front + back);
    Seq::filter_distributes_over_add(front, back, test);
    Seq::filter_distributes_over_add(front.push(item), back, test);
    front.lemma_filter_push(item, test);
    if order_of(item) == order {
        assert forall|k: int| 0 <= k < back.len() implies order_of(#[trigger] back[k])
            != order by {
            assert(back[k] == items[at + k]);
        }
        lemma_of_order_none(back, order);
        assert(front.filter(test) + Seq::<FlexItem>::empty() =~= front.filter(test));
        assert(front.filter(test).push(item) + Seq::<FlexItem>::empty() =~= front.filter(
            test,
        ).push(item));
    }
}

proof fn lemma_insert_in_visual_order(items: Seq<FlexItem>, item: FlexItem)
    requires
        in_visual_order(items),
    ensures
        in_visual_order(insert_by_order(items, item)),
{
    let at = insert_position(items, order_of(item));
    lemma_insert_position(items, order_of(item));
    items.insert_ensures(at, item);
    let sorted = insert_by_order(items, item);
    assert forall|i: int, j: int| 0 <= i < j < sorted.len() implies order_of(
        #[trigger] sorted[i],
    ) <= order_of(#[trigger] sorted[j]) by {
        if i < at {
            assert(sorted[i] == items[i]);
            assert(order_of(items[i]) <= order_of(items[at - 1]));
        }
        if j > at {
            assert(sorted[(j - 1) + 1] == items[j - 1]);
        }
        if i > at {
            assert(sorted[(i - 1) + 1] == items[i - 1]);
        }
    }
}

/// The visual order is the child order sorted by `order`, and nothing else:
/// the sorted items stand by ascending `order`, they are the same items,
/// each as often as before, and the items of any one `order` keep the
/// order they came in.
pub proof fn lemma_sort_by_order(items: Seq<FlexItem>)
    ensures
        in_visual_order(sort_by_order(items)),
        sort_by_order(items).to_multiset() == items.to_multiset(),
        forall|order: int| #[trigger] of_order(sort_by_order(items), order) == of_order(items, order),
    decreases items.len(),
{
    if items.len() > 0 {
        let rest = items.drop_last();
        let last = items.last();
        let earlier = sort_by_order(rest);
        lemma_sort_by_order(rest);
        lemma_insert_in_visual_order(earlier, last);
        lemma_insert_position(earlier, order_of(last));
        vstd::seq_lib::to_multiset_insert(earlier, insert_position(earlier, order_of(last)), last);
        assert(items =~= rest.push(last));
        vstd::seq_lib::to_multiset_build(rest, last);
        assert forall|order: int| #[trigger]
            of_order(sort_by_order(items), order) == of_order(items, order) by {
            lemma_insert_of_order(earlier, last, order);
            rest.lemma_filter_push(last, has_order(order));
            assert(of_order(earlier, order) == of_order(rest, order));
        }
    }
}

/// Every item stands for a node that takes part.
pub open spec fn all_take_part(doc: Document, items: Seq<FlexItem>) -> bool {
    forall|k: int| 0 <= k < items.len() ==> participates(doc.nodes@[(#[trigger] items[k]).node as int])
}

proof fn lemma_participants_take_part(
    doc: Document,
    rules: Seq<Rule>,
    layouts: Seq<LayoutRecord>,
    container: int,
    container_style: Style,
    direction: FlexDirection,
    upto: int,
)
    requires
        0 <= upto <= doc.nodes@[container].children@.len(),
    ensures
        all_take_part(
            doc,
            participants(doc, rules, layouts, container, container_style, direction, upto),
        ),
    decreases upto,
{
    if upto > 0 {
        lemma_participants_take_part(
            doc,
            rules,
            layouts,
            container,
            container_style,
            direction,
            upto - 1,
        );
    }
}

/// A child that does not take part, such as a text child whose text is
/// blank, gives no flex item: no item of the container stands for it.
pub proof fn lemma_no_item_without_part(
    doc: Document,
    rules: Seq<Rule>,
    layouts: Seq<LayoutRecord>,
    container: int,
    container_style: Style,
    child: int,
)
    requires
        0 <= child < doc.len(),
        !participates(doc.nodes@[child]),
    ensures
        forall|k: int|
            0 <= k < flex_items(doc, rules, layouts, container, container_style).len() ==> (
            #[trigger] flex_items(doc, rules, layouts, container, container_style)[k]).node
                != child,
{
    let direction = crate::flex_place::direction_of(container_style);
    let all = participants(
        doc,
        rules,
        layouts,
        container,
        container_style,
        direction,
        doc.nodes@[container].children@.len() as int,
    );
    lemma_participants_take_part(
        doc,
        rules,
        layouts,
        container,
        container_style,
        direction,
        doc.nodes@[container].children@.len() as int,
    );
    lemma_sort_by_order(all);
    let items = sort_by_order(all);
    assert forall|k: int| 0 <= k < items.len() implies (#[trigger] items[k]).node != child by {
        vstd::seq_lib::to_multiset_contains(items, items[k]);
        vstd::seq_lib::to_multiset_contains(all, items[k]);
        assert(items.contains(items[k]));
        let j = choose|j: int| 0 <= j < all.len() && all[j] == items[k];
        assert(participates(doc.nodes@[all[j].node as int]));
    }
}

/// What the rules that match the given `class` attribute do to a style.
pub open spec fn rules_patch(rules: Seq<Rule>, classes: Seq<char>) -> crate::style_patch::Patch
    decreases rules.len(),
{
    if rules.len() == 0 {
        crate::style_patch::Patch::none()
    } else {
        let earlier = rules_patch(rules.drop_last(), classes);
        if rule_matches(rules.last(), classes) {
            earlier.with_all(rules.last().declarations@)
        } else {
            earlier
        }
    }
}

/// Applying the rules is applying their patch.
pub proof fn lemma_rules_patch(style: Style, rules: Seq<Rule>, classes: Seq<char>)
    ensures
        rules_patch(rules, classes).wf(),
        apply_rules(style, rules, classes) == rules_patch(rules, classes).apply(style),
    decreases rules.len(),
{
    if rules.len() > 0 {
        lemma_rules_patch(style, rules.drop_last(), classes);
        if rule_matches(rules.last(), classes) {
            rules_patch(rules.drop_last(), classes).lemma_with_all(
                rules.last().declarations@,
                style,
            );
        }
    }
}

/// The rules applied twice are the rules applied once.
pub proof fn lemma_apply_rules_twice(style: Style, rules: Seq<Rule>, classes: Seq<char>)
    ensures
        apply_rules(apply_rules(style, rules, classes), rules, classes) == apply_rules(
            style,
            rules,
            classes,
        ),
{
    lemma_rules_patch(style, rules, classes);
    lemma_rules_patch(apply_rules(style, rules, classes), rules, classes);
    rules_patch(rules, classes).lemma_apply_twice(style);
}

/// Resolving is idempotent: a style that was resolved before, with
/// whatever fallback, resolves to what the style it came from resolves to.
pub proof fn lemma_resolve_absorbs(
    node: Node,
    rules: Seq<Rule>,
    cached: Style,
    earlier_fallback: Style,
    fallback: Style,
)
    ensures
        resolved_style(node, rules, resolved_style(node, rules, cached, earlier_fallback), fallback)
            == resolved_style(node, rules, cached, fallback),
{
    match attribute_value(node.attributes@, "class"@) {
        Some(classes) => {
            lemma_apply_rules_twice(cached, rules, classes);
            assert(crate::document::has_attribute(node.attributes@, "class"@));
        },
        None => {},
    }
}

/// No two items stand for the same node.
pub open spec fn nodes_distinct(items: Seq<FlexItem>) -> bool {
    forall|i: int, j: int|
        0 <= i < j < items.len() ==> (#[trigger] items[i]).node != (#[trigger] items[j]).node
}

proof fn lemma_sort_nodes_distinct(items: Seq<FlexItem>)
    requires
        nodes_distinct(items),
    ensures
        nodes_distinct(sort_by_order(items)),
    decreases items.len(),
{
    if items.len() > 0 {
        let rest = items.drop_last();
        let last = items.last();
        assert(nodes_distinct(rest)) by {
            assert forall|i: int, j: int| 0 <= i < j < rest.len() implies (#[trigger] rest[i]).node
                != (#[trigger] rest[j]).node by {
                assert(rest[i] == items[i] && rest[j] == items[j]);
            }
        }
        lemma_sort_nodes_distinct(rest);
        let earlier = sort_by_order(rest);
        let others = Seq::new(rest.len(), |k: int| rest[k].node);
        assert(nodes_among(rest, others)) by {
            assert forall|k: int| 0 <= k < rest.len() implies others.contains(
                (#[trigger] rest[k]).node,
            ) by {
                assert(others[k] == rest[k].node);
            }
        }
        lemma_sort_nodes_among(rest, others);
        let at = insert_position(earlier, order_of(last));
        lemma_insert_position_range(earlier, order_of(last));
        earlier.insert_ensures(at, last);
        let sorted = earlier.insert(at, last);
        assert forall|k: int| 0 <= k < earlier.len() implies (#[trigger] earlier[k]).node
            != last.node by {
            assert(others.contains(earlier[k].node));
            let w = choose|w: int| 0 <= w < others.len() && others[w] == earlier[k].node;
            assert(rest[w] == items[w]);
            assert(items[w].node != items[items.len() - 1].node);
        }
        assert forall|i: int, j: int| 0 <= i < j < sorted.len() implies (#[trigger] sorted[i]).node
            != (#[trigger] sorted[j]).node by {
            let i0 = if i < at {
                i
            } else {
                i - 1
            };
            let j0 = if j < at {
                j
            } else {
                j - 1
            };
            if i != at {
                assert(sorted[i] == earlier[i0]) by {
                    if i > at {
                        assert(sorted[(i - 1) + 1] == earlier[i - 1]);
                    }
                }
            }
            if j != at {
                assert(sorted[j] == earlier[j0]) by {
                    if j > at {
                        assert(sorted[(j - 1) + 1] == earlier[j - 1]);
                    }
                }
            }
        }
    }
}

proof fn lemma_participants_nodes_distinct(
    doc: Document,
    rules: Seq<Rule>,
    layouts: Seq<LayoutRecord>,
    container: int,
    container_style: Style,
    direction: FlexDirection,
    upto: int,
)
    requires
        doc.wf(),
        0 <= container < doc.len(),
        0 <= upto <= doc.nodes@[container].children@.len(),
    ensures
        nodes_distinct(
            participants(doc, rules, layouts, container, container_style, direction, upto),
        ),
        nodes_among(
            participants(doc, rules, layouts, container, container_style, direction, upto),
            doc.nodes@[container].children@.take(upto),
        ),
    decreases upto,
{
    let kids = doc.nodes@[container].children@;
    if upto > 0 {
        lemma_participants_nodes_distinct(
            doc,
            rules,
            layouts,
            container,
            container_style,
            direction,
            upto - 1,
        );
        let earlier = participants(
            doc,
            rules,
            layouts,
            container,
            container_style,
            direction,
            upto - 1,
        );
        let now = participants(doc, rules, layouts, container, container_style, direction, upto);
        assert(doc.is_child_edge(container, kids[upto - 1] as int));
        assert forall|k: int| 0 <= k < earlier.len() implies kids.take(upto).contains(
            (#[trigger] earlier[k]).node,
        ) && earlier[k].node != kids[upto - 1] by {
            let before = kids.take(upto - 1);
            assert(before.contains(earlier[k].node));
            let w = choose|w: int| 0 <= w < before.len() && before[w] == earlier[k].node;
            assert(kids.take(upto)[w] == earlier[k].node);
            assert(kids[w] != kids[upto - 1]);
        }
        if participates(doc.nodes@[kids[upto - 1] as int]) {
            assert(kids.take(upto)[upto - 1] == kids[upto - 1]);
            assert forall|k: int| 0 <= k < now.len() implies kids.take(upto).contains(
                (#[trigger] now[k]).node,
            ) by {
                if k < earlier.len() {
                    assert(now[k] == earlier[k]);
                }
            }
            assert forall|i: int, j: int| 0 <= i < j < now.len() implies (#[trigger] now[i]).node
                != (#[trigger] now[j]).node by {
                assert(now[i] == earlier[i]);
                if j < earlier.len() {
                    assert(now[j] == earlier[j]);
                }
            }
        }
    }
}

/// No two flex items of a container stand for the same child.
pub proof fn lemma_flex_items_distinct(
    doc: Document,
    rules: Seq<Rule>,
    layouts: Seq<LayoutRecord>,
    container: int,
    container_style: Style,
)
    requires
        doc.wf(),
        0 <= container < doc.len(),
    ensures
        nodes_distinct(flex_items(doc, rules, layouts, container, container_style)),
{
    let direction = crate::flex_place::direction_of(container_style);
    lemma_participants_nodes_distinct(
        doc,
        rules,
        layouts,
        container,
        container_style,
        direction,
        doc.nodes@[container].children@.len() as int,
    );
    lemma_sort_nodes_distinct(
        participants(
            doc,
            rules,
            layouts,
            container,
            container_style,
            direction,
            doc.nodes@[container].children@.len() as int,
        ),
    );
}

proof fn lemma_participant_listed(
    doc: Document,
    rules: Seq<Rule>,
    layouts: Seq<LayoutRecord>,
    container: int,
    container_style: Style,
    direction: FlexDirection,
    upto: int,
    j: int,
)
    requires
        0 <= j < upto <= doc.nodes@[container].children@.len(),
        participates(doc.nodes@[doc.nodes@[container].children@[j] as int]),
    ensures
        participants(doc, rules, layouts, container, container_style, direction, upto).contains(
            item_for(
                doc,
                rules,
                layouts,
                doc.nodes@[container].children@[j] as int,
                container_style,
                direction,
            ),
        ),
    decreases upto,
{
    let now = participants(doc, rules, layouts, container, container_style, direction, upto);
    let earlier = participants(
        doc,
        rules,
        layouts,
        container,
        container_style,
        direction,
        upto - 1,
    );
    let wanted = item_for(
        doc,
        rules,
        layouts,
        doc.nodes@[container].children@[j] as int,
        container_style,
        direction,
    );
    if j == upto - 1 {
        assert(now[now.len() - 1] == wanted);
    } else {
        lemma_participant_listed(
            doc,
            rules,
            layouts,
            container,
            container_style,
            direction,
            upto - 1,
            j,
        );
        let w = choose|w: int| 0 <= w < earlier.len() && earlier[w] == wanted;
        assert(now[w] == wanted);
    }
}

/// Every child that takes part has a flex item.
pub proof fn lemma_item_for_participant(
    doc: Document,
    rules: Seq<Rule>,
    layouts: Seq<LayoutRecord>,
    container: int,
    container_style: Style,
    j: int,
) -> (k: int)
    requires
        doc.wf(),
        0 <= container < doc.len(),
        0 <= j < doc.nodes@[container].children@.len(),
        participates(doc.nodes@[doc.nodes@[container].children@[j] as int]),
    ensures
        0 <= k < flex_items(doc, rules, layouts, container, container_style).len(),
        flex_items(doc, rules, layouts, container, container_style)[k].node
            == doc.nodes@[container].children@[j],
{
    let direction = crate::flex_place::direction_of(container_style);
    let kids = doc.nodes@[container].children@;
    let all = participants(
        doc,
        rules,
        layouts,
        container,
        container_style,
        direction,
        kids.len() as int,
    );
    let wanted = item_for(doc, rules, layouts, kids[j] as int, container_style, direction);
    lemma_participant_listed(
        doc,
        rules,
        layouts,
        container,
        container_style,
        direction,
        kids.len() as int,
        j,
    );
    lemma_sort_by_order(all);
    let items = sort_by_order(all);
    vstd::seq_lib::to_multiset_contains(all, wanted);
    vstd::seq_lib::to_multiset_contains(items, wanted);
    assert(doc.is_child_edge(container, kids[j] as int));
    choose|k: int| 0 <= k < items.len() && items[k] == wanted
}

/// Every flex item of a container stands for a child that takes part.
pub proof fn lemma_items_take_part(
    doc: Document,
    rules: Seq<Rule>,
    layouts: Seq<LayoutRecord>,
    container: int,
    container_style: Style,
)
    ensures
        all_take_part(doc, flex_items(doc, rules, layouts, container, container_style)),
{
    let direction = crate::flex_place::direction_of(container_style);
    let all = participants(
        doc,
        rules,
        layouts,
        container,
        container_style,
        direction,
        doc.nodes@[container].children@.len() as int,
    );
    lemma_participants_take_part(
        doc,
        rules,
        layouts,
        container,
        container_style,
        direction,
        doc.nodes@[container].children@.len() as int,
    );
    lemma_sort_by_order(all);
    let items = sort_by_order(all);
    assert forall|k: int| 0 <= k < items.len() implies participates(
        doc.nodes@[(#[trigger] items[k]).node as int],
    ) by {
        vstd::seq_lib::to_multiset_contains(items, items[k]);
        vstd::seq_lib::to_multiset_contains(all, items[k]);
        assert(items.contains(items[k]));
        let j = choose|j: int| 0 <= j < all.len() && all[j] == items[k];
        assert(participates(doc.nodes@[all[j].node as int]));
    }
}

/// Every flex item carries the style that its node's record resolves to
/// with the container's style as fallback.
pub open spec fn all_resolved(
    doc: Document,
    rules: Seq<Rule>,
    layouts: Seq<LayoutRecord>,
    container_style: Style,
    items: Seq<FlexItem>,
) -> bool {
    forall|k: int|
        0 <= k < items.len() ==> (#[trigger] items[k]).style == resolved_style(
            doc.nodes@[items[k].node as int],
            rules,
            layouts[items[k].node as int].style,
            container_style,
        )
}

proof fn lemma_participants_resolved(
    doc: Document,
    rules: Seq<Rule>,
    layouts: Seq<LayoutRecord>,
    container: int,
    container_style: Style,
    direction: FlexDirection,
    upto: int,
)
    requires
        doc.wf(),
        0 <= container < doc.len(),
        0 <= upto <= doc.nodes@[container].children@.len(),
    ensures
        all_resolved(
            doc,
            rules,
            layouts,
            container_style,
            participants(doc, rules, layouts, container, container_style, direction, upto),
        ),
    decreases upto,
{
    if upto > 0 {
        lemma_participants_resolved(
            doc,
            rules,
            layouts,
            container,
            container_style,
            direction,
            upto - 1,
        );
        assert(doc.is_child_edge(
            container,
            doc.nodes@[container].children@[upto - 1] as int,
        ));
    }
}

/// Every flex item of a container carries its node's resolved style.
pub proof fn lemma_items_resolved(
    doc: Document,
    rules: Seq<Rule>,
    layouts: Seq<LayoutRecord>,
    container: int,
    container_style: Style,
)
    requires
        doc.wf(),
        0 <= container < doc.len(),
    ensures
        all_resolved(
            doc,
            rules,
            layouts,
            container_style,
            flex_items(doc, rules, layouts, container, container_style),
        ),
{
    let direction = crate::flex_place::direction_of(container_style);
    let all = participants(
        doc,
        rules,
        layouts,
        container,
        container_style,
        direction,
        doc.nodes@[container].children@.len() as int,
    );
    lemma_participants_resolved(
        doc,
        rules,
        layouts,
        container,
        container_style,
        direction,
        doc.nodes@[container].children@.len() as int,
    );
    lemma_sort_by_order(all);
    let items = sort_by_order(all);
    assert forall|k: int| 0 <= k < items.len() implies (#[trigger] items[k]).style
        == resolved_style(
        doc.nodes@[items[k].node as int],
        rules,
        layouts[items[k].node as int].style,
        container_style,
    ) by {
        vstd::seq_lib::to_multiset_contains(items, items[k]);
        vstd::seq_lib::to_multiset_contains(all, items[k]);
        assert(items.contains(items[k]));
        let j = choose|j: int| 0 <= j < all.len() && all[j] == items[k];
    }
}

} // verus!
