use lolite::geometry::Rect;
use lolite::layout::LayoutContext;
use lolite::style::{Declaration, Display, FlexDirection, FlexWrap, Length, Sides};
use lolite::Id;

fn div(ctx: &mut LayoutContext, parent: Id, class: &str) -> Id {
    let id = Id::from_u64(ctx.document.nodes.len() as u64);
    let node = ctx.document.create_node(id, None);
    ctx.document.set_parent(parent, node).unwrap();
    ctx.document
        .set_attribute(node, "class".to_owned(), class.to_owned());
    node
}

fn assert_node_bounds_eq(ctx: &LayoutContext, node: Id, expected: &Rect) {
    assert_eq!(ctx.bounds_of(node), Some(*expected));
}

fn px(units: u32) -> Length {
    Length::Px(units)
}

#[test]
fn test_nested_flex_layout() {
    let mut ctx = LayoutContext::new();

    ctx.style_sheet.add_class_rule(
        "flex_container".to_owned(),
        vec![
            Declaration::Display(Display::Flex),
            Declaration::FlexDirection(FlexDirection::Row),
            Declaration::Width(px(400)),
            Declaration::Height(px(200)),
        ],
    );
    ctx.style_sheet.add_class_rule(
        "child1".to_owned(),
        vec![
            Declaration::Display(Display::Flex),
            Declaration::FlexDirection(FlexDirection::Column),
            Declaration::FlexWrap(FlexWrap::Wrap),
        ],
    );
    ctx.style_sheet
        .add_class_rule("grow".to_owned(), vec![Declaration::FlexGrow(1)]);
    ctx.style_sheet
        .add_class_rule("child2".to_owned(), vec![Declaration::FlexGrow(1)]);
    ctx.style_sheet.add_class_rule(
        "nested_child".to_owned(),
        vec![Declaration::Height(px(40)), Declaration::Width(px(60))],
    );

    let root = ctx.document.root_id();
    let container = div(&mut ctx, root, "flex_container");

    let child1 = div(&mut ctx, container, "child1");

    let nested1 = div(&mut ctx, child1, "nested_child");
    let nested2 = div(&mut ctx, child1, "nested_child grow");
    let nested3 = div(&mut ctx, child1, "nested_child");
    let nested4 = div(&mut ctx, child1, "nested_child");

    let child2 = div(&mut ctx, container, "child2");

    ctx.layout();

    assert_node_bounds_eq(&ctx, container, &Rect::new(0, 0, 400, 200));
    assert_node_bounds_eq(&ctx, child1, &Rect::new(0, 0, 60, 200));
    assert_node_bounds_eq(&ctx, nested1, &Rect::new(0, 0, 60, 40));
    assert_node_bounds_eq(&ctx, nested2, &Rect::new(0, 40, 60, 80));
    assert_node_bounds_eq(&ctx, nested3, &Rect::new(0, 120, 60, 40));
    assert_node_bounds_eq(&ctx, nested4, &Rect::new(0, 160, 60, 40));
    assert_node_bounds_eq(&ctx, child2, &Rect::new(60, 0, 340, 200));
}

fn margin_context(child_margins: Vec<Declaration>) -> (LayoutContext, Id, Id) {
    let mut ctx = LayoutContext::new();
    ctx.style_sheet.add_class_rule(
        "container".to_owned(),
        vec![
            Declaration::Display(Display::Flex),
            Declaration::Width(px(400)),
            Declaration::Height(px(200)),
        ],
    );
    let mut child = vec![Declaration::Width(px(60)), Declaration::Height(px(40))];
    child.extend(child_margins);
    ctx.style_sheet.add_class_rule("child".to_owned(), child);

    let root = ctx.document.root_id();
    let container = div(&mut ctx, root, "container");
    let child = div(&mut ctx, container, "child");
    (ctx, container, child)
}

#[test]
fn test_margin_override_1() {
    // first margin, then override margin-left
    let (mut ctx, container, child) = margin_context(vec![
        Declaration::Margin(Sides::uniform(px(20))),
        Declaration::MarginLeft(px(50)),
    ]);

    ctx.layout();

    assert_node_bounds_eq(&ctx, container, &Rect::new(0, 0, 400, 200));
    assert_node_bounds_eq(&ctx, child, &Rect::new(50, 20, 60, 40));
}

#[test]
fn test_margin_override_2() {
    // first margin-left, then override margin
    let (mut ctx, container, child) = margin_context(vec![
        Declaration::MarginLeft(px(50)),
        Declaration::Margin(Sides::uniform(px(20))),
    ]);

    ctx.layout();

    assert_node_bounds_eq(&ctx, container, &Rect::new(0, 0, 400, 200));
    assert_node_bounds_eq(&ctx, child, &Rect::new(20, 20, 60, 40));
}
