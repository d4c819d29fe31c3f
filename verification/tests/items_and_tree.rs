use lolite::document::Document;
use lolite::flex_items::{
    base_sizes_for_item, collect_flex_items, insert_item, intrinsic_main_from_children,
    is_participant, resolve_style,
};
use lolite::flex_layout::FlexLayoutEngine;
use lolite::flex_lines::FlexItem;
use lolite::geometry::Rect;
use lolite::layout::{LayoutContext, LayoutRecord};
use lolite::style::{
    AlignItems, Declaration, Display, FlexDirection, JustifyContent, Length, Sides, Style,
    StyleSheet,
};
use lolite::text::{contains_token, is_whitespace, text_is_blank};
use lolite::Id;

fn px(units: u32) -> Length {
    Length::Px(units)
}

fn next_id(ctx: &LayoutContext) -> Id {
    Id::from_u64(ctx.document.nodes.len() as u64)
}

fn element(ctx: &mut LayoutContext, parent: Id, class: &str) -> Id {
    let id = next_id(ctx);
    let node = ctx.document.create_node(id, None);
    ctx.document.set_parent(parent, node).unwrap();
    ctx.document
        .set_attribute(node, "class".to_owned(), class.to_owned());
    node
}

fn text(ctx: &mut LayoutContext, parent: Id, content: &str) -> Id {
    let id = next_id(ctx);
    let node = ctx.document.create_node(id, Some(content.to_owned()));
    ctx.document.set_parent(parent, node).unwrap();
    node
}

fn index(ctx: &LayoutContext, id: Id) -> usize {
    ctx.document.index_of(id).unwrap()
}

fn bounds(ctx: &LayoutContext, id: Id) -> Rect {
    ctx.bounds_of(id).unwrap()
}

fn flex_row_context() -> (LayoutContext, Id) {
    let mut ctx = LayoutContext::new();
    ctx.style_sheet.add_class_rule(
        "row".to_owned(),
        vec![
            Declaration::Display(Display::Flex),
            Declaration::Width(px(400)),
            Declaration::Height(px(200)),
        ],
    );
    ctx.style_sheet.add_class_rule(
        "box".to_owned(),
        vec![Declaration::Width(px(60)), Declaration::Height(px(40))],
    );
    let root = ctx.document.root_id();
    let container = element(&mut ctx, root, "row");
    (ctx, container)
}

#[test]
fn white_space_has_the_unicode_property() {
    for c in [' ', '\t', '\n', '\r', '\u{0B}', '\u{0C}', '\u{85}', '\u{A0}'] {
        assert!(is_whitespace(c));
        assert!(c.is_whitespace());
    }
    for c in ['\u{1680}', '\u{2000}', '\u{200A}', '\u{2028}', '\u{2029}', '\u{202F}', '\u{205F}', '\u{3000}'] {
        assert!(is_whitespace(c));
        assert!(c.is_whitespace());
    }
    for c in ['a', '0', '_', '\u{08}', '\u{0E}', '\u{200B}', '\u{FEFF}', '\u{1F}'] {
        assert!(!is_whitespace(c));
        assert!(!c.is_whitespace());
    }
}

#[test]
fn is_whitespace_agrees_with_the_standard_library() {
    let mut code = 0u32;
    while code <= 0x3100 {
        if let Some(c) = char::from_u32(code) {
            assert_eq!(is_whitespace(c), c.is_whitespace());
        }
        code += 1;
    }
}

#[test]
fn blank_text_is_all_white_space() {
    assert!(text_is_blank(""));
    assert!(text_is_blank("   "));
    assert!(text_is_blank(" \n\t\r\u{A0}"));
    assert!(!text_is_blank(" a "));
    assert!(!text_is_blank("a"));
    assert!(!text_is_blank("\u{200B}"));
}

#[test]
fn class_names_are_white_space_separated_tokens() {
    assert!(contains_token("nested_child grow", "grow"));
    assert!(contains_token("nested_child grow", "nested_child"));
    assert!(contains_token("  a\t b\n", "a"));
    assert!(contains_token("  a\t b\n", "b"));
    assert!(contains_token("grow", "grow"));
    assert!(!contains_token("nested_child grow", "child"));
    assert!(!contains_token("nested_child grow", "gro"));
    assert!(!contains_token("nested_child grow", "nested_child grow"));
    assert!(!contains_token("grown", "grow"));
    assert!(!contains_token("a b", ""));
    assert!(!contains_token("", ""));
    assert!(!contains_token("", "a"));
}

#[test]
fn declarations_merge_in_order() {
    let mut style = Style::new();
    assert_eq!(style, Style::default());
    style.merge(&Declaration::Width(px(10)));
    style.merge(&Declaration::Width(px(20)));
    style.merge(&Declaration::Order(-3));
    style.merge(&Declaration::FlexShrink(2));
    style.merge(&Declaration::FlexBasis(Length::Auto));
    style.merge(&Declaration::AlignItems(AlignItems::Center));
    style.merge(&Declaration::JustifyContent(JustifyContent::SpaceEvenly));
    assert_eq!(style.width, Some(px(20)));
    assert_eq!(style.order, Some(-3));
    assert_eq!(style.flex_shrink, Some(2));
    assert_eq!(style.flex_basis, Some(Length::Auto));
    assert_eq!(style.align_items, Some(AlignItems::Center));
    assert_eq!(style.justify_content, Some(JustifyContent::SpaceEvenly));
    assert_eq!(style.height, None);
    assert_eq!(style.margin, None);

    let mut all = Style::new();
    all.merge_all(&vec![
        Declaration::Width(px(10)),
        Declaration::Height(px(5)),
        Declaration::Width(px(20)),
    ]);
    assert_eq!(all.width, Some(px(20)));
    assert_eq!(all.height, Some(px(5)));
}

#[test]
fn one_sided_margins_keep_the_other_sides() {
    let mut style = Style::new();
    style.merge(&Declaration::MarginTop(px(7)));
    assert_eq!(
        style.margin,
        Some(Sides {
            top: px(7),
            right: px(0),
            bottom: px(0),
            left: px(0),
        })
    );
    style.merge(&Declaration::Margin(Sides::uniform(px(20))));
    style.merge(&Declaration::MarginLeft(px(50)));
    style.merge(&Declaration::MarginBottom(Length::Auto));
    style.merge(&Declaration::MarginRight(px(1)));
    assert_eq!(
        style.margin,
        Some(Sides {
            top: px(20),
            right: px(1),
            bottom: Length::Auto,
            left: px(50),
        })
    );
    assert_eq!(Length::Auto.to_px(), 0);
    assert_eq!(px(9).to_px(), 9);
    assert!(px(0).is_px());
    assert!(!Length::Auto.is_px());
}

#[test]
fn the_last_matching_rule_wins() {
    let mut ctx = LayoutContext::new();
    ctx.style_sheet
        .add_class_rule("a".to_owned(), vec![Declaration::Width(px(1)), Declaration::Order(1)]);
    ctx.style_sheet
        .add_class_rule("b".to_owned(), vec![Declaration::Width(px(2))]);
    ctx.style_sheet
        .add_class_rule("c".to_owned(), vec![Declaration::Width(px(3))]);
    ctx.style_sheet
        .add_class_rule("a".to_owned(), vec![Declaration::Height(px(4))]);
    let root = ctx.document.root_id();
    let node = element(&mut ctx, root, "b a");
    let other = element(&mut ctx, root, "d");
    ctx.prepare();

    let fallback = Style::new();
    let style = resolve_style(
        &ctx.document,
        &ctx.style_sheet,
        &ctx.layouts,
        index(&ctx, node),
        &fallback,
    );
    let mut expected = Style::new();
    expected.width = Some(px(2));
    expected.order = Some(1);
    expected.height = Some(px(4));
    assert_eq!(style, expected);

    let style = resolve_style(
        &ctx.document,
        &ctx.style_sheet,
        &ctx.layouts,
        index(&ctx, other),
        &fallback,
    );
    assert_eq!(style, Style::new());
}

#[test]
fn rules_merge_onto_the_cached_style() {
    let mut ctx = LayoutContext::new();
    ctx.style_sheet
        .add_class_rule("a".to_owned(), vec![Declaration::Width(px(1))]);
    let root = ctx.document.root_id();
    let node = element(&mut ctx, root, "a");
    ctx.prepare();
    let at = index(&ctx, node);
    ctx.layouts[at].style.height = Some(px(9));
    ctx.layouts[at].style.width = Some(px(8));
    ctx.layouts[at].style.display = Some(Display::Block);

    let mut fallback = Style::new();
    fallback.display = Some(Display::Flex);
    let style = resolve_style(&ctx.document, &ctx.style_sheet, &ctx.layouts, at, &fallback);
    assert_eq!(style.width, Some(px(1)));
    assert_eq!(style.height, Some(px(9)));
    assert_eq!(style.display, Some(Display::Block));
}

#[test]
fn a_node_without_attributes_and_children_inherits_display() {
    let mut ctx = LayoutContext::new();
    let root = ctx.document.root_id();
    let parent = element(&mut ctx, root, "p");
    let anonymous = text(&mut ctx, parent, "words");
    let bare_parent = {
        let id = next_id(&ctx);
        ctx.document.create_node(id, None);
        ctx.document.set_parent(root, id).unwrap();
        id
    };
    let below = text(&mut ctx, bare_parent, "words");
    ctx.prepare();

    let mut fallback = Style::new();
    fallback.display = Some(Display::Flex);
    fallback.width = Some(px(5));
    let resolve = |ctx: &LayoutContext, id: Id| {
        resolve_style(
            &ctx.document,
            &ctx.style_sheet,
            &ctx.layouts,
            index(ctx, id),
            &fallback,
        )
    };
    let mut inherited = Style::new();
    inherited.display = Some(Display::Flex);
    assert_eq!(resolve(&ctx, anonymous), inherited);
    assert_eq!(resolve(&ctx, below), inherited);
    // attributes or children: nothing is inherited
    assert_eq!(resolve(&ctx, parent), Style::new());
    assert_eq!(resolve(&ctx, bare_parent), Style::new());
}

#[test]
fn base_sizes_default_to_100_by_30() {
    let mut ctx = LayoutContext::new();
    let root = ctx.document.root_id();
    let leaf = element(&mut ctx, root, "leaf");
    ctx.prepare();
    let at = index(&ctx, leaf);
    let sizes = |style: &Style, direction: FlexDirection| {
        base_sizes_for_item(
            &ctx.document,
            &ctx.style_sheet,
            &ctx.layouts,
            at,
            style,
            &direction,
        )
    };

    let mut style = Style::new();
    assert_eq!(sizes(&style, FlexDirection::Row), (100, 30));
    assert_eq!(sizes(&style, FlexDirection::ColumnReverse), (30, 100));

    style.width = Some(Length::Auto);
    style.height = Some(px(0));
    assert_eq!(sizes(&style, FlexDirection::Row), (100, 30));

    style.width = Some(px(60));
    style.height = Some(px(40));
    assert_eq!(sizes(&style, FlexDirection::Row), (60, 40));
    assert_eq!(sizes(&style, FlexDirection::RowReverse), (60, 40));
    assert_eq!(sizes(&style, FlexDirection::Column), (40, 60));
}

#[test]
fn flex_basis_sets_the_main_size_only() {
    let mut ctx = LayoutContext::new();
    let root = ctx.document.root_id();
    let leaf = element(&mut ctx, root, "leaf");
    ctx.prepare();
    let at = index(&ctx, leaf);
    let sizes = |style: &Style, direction: FlexDirection| {
        base_sizes_for_item(
            &ctx.document,
            &ctx.style_sheet,
            &ctx.layouts,
            at,
            style,
            &direction,
        )
    };

    let mut style = Style::new();
    style.width = Some(px(60));
    style.height = Some(px(40));
    style.flex_basis = Some(px(150));
    assert_eq!(sizes(&style, FlexDirection::Row), (150, 40));
    assert_eq!(sizes(&style, FlexDirection::Column), (150, 60));
    style.flex_basis = Some(px(0));
    assert_eq!(sizes(&style, FlexDirection::Row), (0, 40));
    style.flex_basis = Some(Length::Auto);
    assert_eq!(sizes(&style, FlexDirection::Row), (60, 40));
    assert_eq!(sizes(&style, FlexDirection::Column), (40, 60));
}

fn nested_context() -> (LayoutContext, Id) {
    let mut ctx = LayoutContext::new();
    ctx.style_sheet.add_class_rule(
        "small".to_owned(),
        vec![Declaration::Width(px(60)), Declaration::Height(px(40))],
    );
    ctx.style_sheet.add_class_rule(
        "wide".to_owned(),
        vec![Declaration::Width(px(250)), Declaration::Height(px(10))],
    );
    let root = ctx.document.root_id();
    let nested = element(&mut ctx, root, "nested");
    element(&mut ctx, nested, "small");
    element(&mut ctx, nested, "wide");
    element(&mut ctx, nested, "unsized");
    ctx.prepare();
    (ctx, nested)
}

#[test]
fn intrinsic_main_is_the_largest_child() {
    let (ctx, nested) = nested_context();
    let at = index(&ctx, nested);
    let fallback = Style::new();
    let intrinsic = |direction: FlexDirection| {
        intrinsic_main_from_children(
            &ctx.document,
            &ctx.style_sheet,
            &ctx.layouts,
            at,
            &direction,
            &fallback,
        )
    };
    assert_eq!(intrinsic(FlexDirection::Row), 250);
    assert_eq!(intrinsic(FlexDirection::RowReverse), 250);
    // the child without sizes counts with the default height
    assert_eq!(intrinsic(FlexDirection::Column), 40);

    let leaf = ctx.document.nodes[at].children[0];
    assert_eq!(
        intrinsic_main_from_children(
            &ctx.document,
            &ctx.style_sheet,
            &ctx.layouts,
            leaf,
            &FlexDirection::Row,
            &fallback,
        ),
        0
    );
}

#[test]
fn a_container_without_a_main_size_shrinks_to_fit() {
    let (ctx, nested) = nested_context();
    let at = index(&ctx, nested);
    let sizes = |style: &Style, direction: FlexDirection| {
        base_sizes_for_item(
            &ctx.document,
            &ctx.style_sheet,
            &ctx.layouts,
            at,
            style,
            &direction,
        )
    };
    let mut style = Style::new();
    assert_eq!(sizes(&style, FlexDirection::Row), (250, 30));
    assert_eq!(sizes(&style, FlexDirection::Column), (40, 100));
    style.width = Some(Length::Auto);
    assert_eq!(sizes(&style, FlexDirection::Row), (250, 30));

    // an explicit main size or a flex-basis rules it out
    style.width = Some(px(70));
    assert_eq!(sizes(&style, FlexDirection::Row), (70, 30));
    assert_eq!(sizes(&style, FlexDirection::Column), (40, 70));
    style.width = None;
    style.flex_basis = Some(Length::Auto);
    assert_eq!(sizes(&style, FlexDirection::Row), (100, 30));
    style.flex_basis = Some(px(5));
    assert_eq!(sizes(&style, FlexDirection::Row), (5, 30));
}

#[test]
fn text_takes_part_unless_it_is_blank() {
    let mut doc = Document::new();
    doc.create_node(Id::from_u64(1), Some("  \n ".to_owned()));
    doc.create_node(Id::from_u64(2), Some(" words ".to_owned()));
    doc.create_node(Id::from_u64(3), None);
    doc.create_node(Id::from_u64(4), Some(" ".to_owned()));
    doc.set_attribute(Id::from_u64(4), "class".to_owned(), "a".to_owned());
    doc.create_node(Id::from_u64(5), Some(" ".to_owned()));
    doc.create_node(Id::from_u64(6), None);
    doc.set_parent(Id::from_u64(5), Id::from_u64(6)).unwrap();
    doc.create_node(Id::from_u64(7), Some(String::new()));

    assert!(is_participant(&doc.nodes[0]));
    assert!(!is_participant(&doc.nodes[1]));
    assert!(is_participant(&doc.nodes[2]));
    assert!(is_participant(&doc.nodes[3]));
    // blank text with attributes or children is no text item
    assert!(is_participant(&doc.nodes[4]));
    assert!(is_participant(&doc.nodes[5]));
    assert!(!is_participant(&doc.nodes[7]));
}

#[test]
fn blank_text_children_give_no_items() {
    let (mut ctx, container) = flex_row_context();
    let a = element(&mut ctx, container, "box");
    let blank = text(&mut ctx, container, " \n\t ");
    let b = element(&mut ctx, container, "box");
    let words = text(&mut ctx, container, "words");
    ctx.prepare();

    let mut style = Style::new();
    style.display = Some(Display::Flex);
    let items = collect_flex_items(
        &ctx.document,
        &ctx.style_sheet,
        &ctx.layouts,
        index(&ctx, container),
        &style,
    );
    let nodes: Vec<usize> = items.iter().map(|item| item.node).collect();
    assert_eq!(nodes, vec![index(&ctx, a), index(&ctx, b), index(&ctx, words)]);
    assert!(!nodes.contains(&index(&ctx, blank)));
    assert_eq!(items[2].base_main, 100);
    assert_eq!(items[2].base_cross, 30);
    assert_eq!(items[2].style.display, Some(Display::Flex));
    assert_eq!(items[0].final_main, 60);
    assert_eq!(items[0].final_cross, 40);
}

#[test]
fn blank_text_has_no_footprint_in_the_layout() {
    let (mut ctx, container) = flex_row_context();
    let a = element(&mut ctx, container, "box");
    let blank = text(&mut ctx, container, "   ");
    let b = element(&mut ctx, container, "box");
    ctx.layout();
    assert_eq!(bounds(&ctx, a), Rect::new(0, 0, 60, 40));
    assert_eq!(bounds(&ctx, b), Rect::new(60, 0, 60, 40));
    assert_eq!(bounds(&ctx, blank), Rect::new(0, 0, 0, 0));
    assert_eq!(ctx.layouts[index(&ctx, blank)], LayoutRecord::new());

    let (mut plain, container) = flex_row_context();
    let a = element(&mut plain, container, "box");
    let b = element(&mut plain, container, "box");
    plain.layout();
    assert_eq!(bounds(&plain, a), Rect::new(0, 0, 60, 40));
    assert_eq!(bounds(&plain, b), Rect::new(60, 0, 60, 40));
}

#[test]
fn a_container_of_blank_text_only_lays_out_nothing() {
    let (mut ctx, container) = flex_row_context();
    let blank = text(&mut ctx, container, "   ");
    let other = text(&mut ctx, container, "");
    ctx.layout();
    assert_eq!(bounds(&ctx, container), Rect::new(0, 0, 400, 200));
    assert_eq!(ctx.layouts[index(&ctx, blank)], LayoutRecord::new());
    assert_eq!(ctx.layouts[index(&ctx, other)], LayoutRecord::new());
}

#[test]
fn text_that_is_not_blank_is_an_item_of_default_size() {
    let (mut ctx, container) = flex_row_context();
    let a = element(&mut ctx, container, "box");
    let words = text(&mut ctx, container, "words");
    let b = element(&mut ctx, container, "box");
    ctx.layout();
    assert_eq!(bounds(&ctx, a), Rect::new(0, 0, 60, 40));
    // the cross size is unset, so the item stretches over the line
    assert_eq!(bounds(&ctx, words), Rect::new(60, 0, 100, 200));
    assert_eq!(bounds(&ctx, b), Rect::new(160, 0, 60, 40));
}

#[test]
fn order_changes_places_but_not_the_child_list() {
    let (mut ctx, container) = flex_row_context();
    ctx.style_sheet
        .add_class_rule("late".to_owned(), vec![Declaration::Order(2)]);
    ctx.style_sheet
        .add_class_rule("early".to_owned(), vec![Declaration::Order(-1)]);
    let a = element(&mut ctx, container, "box late");
    let b = element(&mut ctx, container, "box");
    let c = element(&mut ctx, container, "box early");
    let d = element(&mut ctx, container, "box");
    let children = ctx.document.nodes[index(&ctx, container)].children.clone();

    ctx.layout();

    assert_eq!(bounds(&ctx, c), Rect::new(0, 0, 60, 40));
    assert_eq!(bounds(&ctx, b), Rect::new(60, 0, 60, 40));
    assert_eq!(bounds(&ctx, d), Rect::new(120, 0, 60, 40));
    assert_eq!(bounds(&ctx, a), Rect::new(180, 0, 60, 40));
    assert_eq!(
        ctx.document.nodes[index(&ctx, container)].children,
        children
    );
    assert_eq!(
        children,
        vec![index(&ctx, a), index(&ctx, b), index(&ctx, c), index(&ctx, d)]
    );
}

#[test]
fn items_are_inserted_behind_those_of_the_same_order() {
    let with_order = |node: usize, order: Option<i32>| {
        let mut style = Style::new();
        style.order = order;
        FlexItem::new(node, style, 10, 10)
    };
    let mut items = Vec::new();
    for (node, order) in [
        (0, Some(1)),
        (1, None),
        (2, Some(1)),
        (3, Some(-5)),
        (4, Some(0)),
        (5, Some(1)),
        (6, Some(-5)),
    ] {
        insert_item(&mut items, with_order(node, order));
    }
    let nodes: Vec<usize> = items.iter().map(|item| item.node).collect();
    assert_eq!(nodes, vec![3, 6, 1, 4, 0, 2, 5]);
}

#[test]
fn layout_twice_gives_the_same_bounds() {
    let (mut ctx, container) = flex_row_context();
    ctx.style_sheet.add_class_rule(
        "grow".to_owned(),
        vec![Declaration::FlexGrow(1), Declaration::Margin(Sides::uniform(px(3)))],
    );
    ctx.style_sheet.add_class_rule(
        "column".to_owned(),
        vec![
            Declaration::Display(Display::Flex),
            Declaration::FlexDirection(FlexDirection::Column),
        ],
    );
    element(&mut ctx, container, "box");
    let nested = element(&mut ctx, container, "column grow");
    element(&mut ctx, nested, "box grow");
    element(&mut ctx, nested, "box");
    text(&mut ctx, nested, "words");
    element(&mut ctx, container, "box grow");

    ctx.layout();
    let first = ctx.layouts.clone();
    ctx.layout();
    assert_eq!(ctx.layouts, first);
}

#[test]
fn layout_flex_children_lays_out_one_container() {
    let (mut ctx, container) = flex_row_context();
    let a = element(&mut ctx, container, "box");
    let b = element(&mut ctx, container, "box");
    let outside = {
        let root = ctx.document.root_id();
        element(&mut ctx, root, "box")
    };
    ctx.prepare();
    let at = index(&ctx, container);
    ctx.layouts[at].bounds = Rect::new(10, 20, 400, 200);
    let before_container = ctx.layouts[at];

    let mut style = Style::new();
    style.display = Some(Display::Flex);
    style.justify_content = Some(JustifyContent::FlexEnd);
    style.align_items = Some(AlignItems::Center);
    FlexLayoutEngine::new().layout_flex_children(at, &style, &mut ctx);

    assert_eq!(bounds(&ctx, a), Rect::new(290, 100, 60, 40));
    assert_eq!(bounds(&ctx, b), Rect::new(350, 100, 60, 40));
    assert_eq!(ctx.layouts[at], before_container);
    assert_eq!(ctx.layouts[index(&ctx, outside)], LayoutRecord::new());
    assert_eq!(ctx.layouts[0], LayoutRecord::new());
    let mut resolved = Style::new();
    resolved.width = Some(px(60));
    resolved.height = Some(px(40));
    assert_eq!(ctx.layouts[index(&ctx, a)].style, resolved);
}

#[test]
fn the_size_from_flexing_wins_over_the_size_of_a_leaf() {
    let (mut ctx, container) = flex_row_context();
    ctx.style_sheet
        .add_class_rule("grow".to_owned(), vec![Declaration::FlexGrow(1)]);
    let a = element(&mut ctx, container, "box grow");
    let b = element(&mut ctx, container, "box");
    ctx.layout();
    assert_eq!(bounds(&ctx, a), Rect::new(0, 0, 340, 40));
    assert_eq!(bounds(&ctx, b), Rect::new(340, 0, 60, 40));
}

#[test]
fn block_children_stack_below_each_other() {
    let mut ctx = LayoutContext::new();
    ctx.style_sheet.add_class_rule(
        "box".to_owned(),
        vec![Declaration::Width(px(60)), Declaration::Height(px(40))],
    );
    ctx.style_sheet.add_class_rule(
        "pushed".to_owned(),
        vec![Declaration::Margin(Sides {
            top: px(5),
            right: px(0),
            bottom: px(0),
            left: px(7),
        })],
    );
    let root = ctx.document.root_id();
    let a = element(&mut ctx, root, "box");
    let b = element(&mut ctx, root, "box pushed");
    let c = element(&mut ctx, root, "plain");
    ctx.layout();
    assert_eq!(bounds(&ctx, root), Rect::new(0, 0, 100, 30));
    assert_eq!(bounds(&ctx, a), Rect::new(0, 0, 60, 40));
    assert_eq!(bounds(&ctx, b), Rect::new(7, 45, 60, 40));
    assert_eq!(bounds(&ctx, c), Rect::new(0, 85, 100, 30));
}

#[test]
fn layout_node_keeps_the_size_a_container_has() {
    let (mut ctx, container) = flex_row_context();
    let a = element(&mut ctx, container, "box");
    ctx.prepare();
    let at = index(&ctx, container);
    ctx.layouts[at].bounds = Rect::new(0, 0, 300, 0);
    ctx.layout_node(at, 5, 6);
    // the width is kept, the height comes from the style
    assert_eq!(bounds(&ctx, container), Rect::new(5, 6, 300, 200));
    assert_eq!(bounds(&ctx, a), Rect::new(5, 6, 60, 40));

    // a leaf takes its size from its style
    let leaf = index(&ctx, a);
    ctx.layouts[leaf].bounds = Rect::new(0, 0, 999, 999);
    ctx.layout_node(leaf, 1, 2);
    assert_eq!(bounds(&ctx, a), Rect::new(1, 2, 60, 40));
}

#[test]
fn bounds_of_an_unknown_node() {
    let mut ctx = LayoutContext::new();
    assert_eq!(ctx.bounds_of(Id::from_u64(0)), None);
    ctx.layout();
    assert_eq!(ctx.bounds_of(Id::from_u64(0)), Some(Rect::new(0, 0, 100, 30)));
    assert_eq!(ctx.bounds_of(Id::from_u64(1)), None);
    let later = ctx.document.create_node(Id::from_u64(1), None);
    assert_eq!(ctx.bounds_of(later), None);
}

#[test]
fn a_style_sheet_keeps_its_rules_in_order() {
    let mut sheet = StyleSheet::new();
    assert!(sheet.rules.is_empty());
    sheet.add_class_rule("a".to_owned(), vec![Declaration::Order(1)]);
    sheet.add_class_rule("b".to_owned(), vec![]);
    assert_eq!(sheet.rules.len(), 2);
    assert_eq!(sheet.rules[0].declarations, vec![Declaration::Order(1)]);
    assert!(sheet.rules[1].declarations.is_empty());
}
