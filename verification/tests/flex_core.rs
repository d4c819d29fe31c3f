use lolite::flex_layout::{
    axis_border_sum_px, axis_padding_sum_px, cross_size_is_auto, determine_available_space,
    gaps_px, is_definite_container_content_box_size, justify_offsets, Axis,
};
use lolite::flex_lines::{break_lines, FlexItem, FlexLine};
use lolite::flex_place::{layout_items, layout_line, FlexContainer};
use lolite::flex_resolve::resolve_flexible_lengths;
use lolite::geometry::{saturate_i128, Rect};
use lolite::style::{
    AlignItems, AlignSelf, FlexDirection, FlexWrap, JustifyContent, Length, Sides, Style,
};

fn sized_style(width: u32, height: u32) -> Style {
    let mut style = Style::new();
    style.width = Some(Length::Px(width));
    style.height = Some(Length::Px(height));
    style
}

fn fixed(node: usize, width: u32, height: u32) -> FlexItem {
    FlexItem::new(node, sized_style(width, height), width, height)
}

fn growing(node: usize, width: u32, height: u32, grow: u32) -> FlexItem {
    let mut item = fixed(node, width, height);
    item.style.flex_grow = Some(grow);
    item
}

fn shrinking(node: usize, width: u32, height: u32, shrink: u32) -> FlexItem {
    let mut item = fixed(node, width, height);
    item.style.flex_shrink = Some(shrink);
    item
}

fn row(width: i64, height: i64) -> FlexContainer {
    FlexContainer {
        x: 0,
        y: 0,
        available_main: width,
        available_cross: height,
        main_gap: 0,
        cross_gap: 0,
        direction: FlexDirection::Row,
        wrap: FlexWrap::NoWrap,
        justify_content: JustifyContent::FlexStart,
        align_items: AlignItems::Stretch,
        cross_definite: true,
    }
}

fn final_mains(items: &[FlexItem]) -> Vec<i64> {
    items.iter().map(|item| item.final_main).collect()
}

#[test]
fn three_fixed_children_start_at_0_60_120() {
    let mut items = vec![fixed(1, 60, 40), fixed(2, 60, 40), fixed(3, 60, 40)];
    let rects = layout_items(&mut items, &row(400, 200));
    assert_eq!(
        rects,
        vec![
            Rect::new(0, 0, 60, 40),
            Rect::new(60, 0, 60, 40),
            Rect::new(120, 0, 60, 40),
        ]
    );
}

#[test]
fn one_growing_child_takes_all_free_space() {
    let mut items = vec![fixed(1, 60, 40), growing(2, 60, 40, 1), fixed(3, 60, 40)];
    let rects = layout_items(&mut items, &row(400, 200));
    assert_eq!(final_mains(&items), vec![60, 280, 60]);
    assert_eq!(
        rects,
        vec![
            Rect::new(0, 0, 60, 40),
            Rect::new(60, 0, 280, 40),
            Rect::new(340, 0, 60, 40),
        ]
    );
}

#[test]
fn column_with_one_growing_child_fills_200() {
    let mut items = vec![
        fixed(1, 60, 40),
        growing(2, 60, 40, 1),
        fixed(3, 60, 40),
        fixed(4, 60, 40),
    ];
    for item in items.iter_mut() {
        item.base_main = 40;
        item.base_cross = 60;
        item.final_main = 40;
        item.final_cross = 60;
    }
    let mut container = row(200, 60);
    container.direction = FlexDirection::Column;
    container.wrap = FlexWrap::Wrap;
    let rects = layout_items(&mut items, &container);
    assert_eq!(final_mains(&items), vec![40, 80, 40, 40]);
    assert_eq!(final_mains(&items).iter().sum::<i64>(), 200);
    assert_eq!(
        rects,
        vec![
            Rect::new(0, 0, 60, 40),
            Rect::new(0, 40, 60, 80),
            Rect::new(0, 120, 60, 40),
            Rect::new(0, 160, 60, 40),
        ]
    );
}

#[test]
fn single_line_with_definite_cross_stretches_to_the_container() {
    let mut style = Style::new();
    style.width = Some(Length::Px(60));
    let mut items = vec![FlexItem::new(1, style, 60, 40)];
    let mut rects = Vec::new();
    let line = FlexLine { start: 0, end: 1 };
    let line_cross = layout_line(&mut items, &row(400, 200), line, 1, 0, &mut rects);
    assert_eq!(line_cross, 200);
    assert_eq!(items[0].final_cross, 200);
    assert_eq!(rects, vec![Rect::new(0, 0, 60, 200)]);
}

#[test]
fn line_cross_size_is_the_largest_item_without_a_definite_cross() {
    let mut style = Style::new();
    style.width = Some(Length::Px(60));
    let mut items = vec![FlexItem::new(1, style, 60, 40), fixed(2, 60, 25)];
    let mut container = row(400, 200);
    container.cross_definite = false;
    let rects = layout_items(&mut items, &container);
    assert_eq!(
        rects,
        vec![Rect::new(0, 0, 60, 40), Rect::new(60, 0, 60, 25)]
    );
}

#[test]
fn growing_fills_the_line_up_to_rounding() {
    let mut items = vec![
        growing(1, 100, 40, 1),
        growing(2, 100, 40, 1),
        growing(3, 100, 40, 1),
    ];
    resolve_flexible_lengths(&mut items, FlexLine { start: 0, end: 3 }, 400, 0);
    assert_eq!(final_mains(&items), vec![133, 133, 133]);
    let used: i64 = final_mains(&items).iter().sum();
    assert!(400 - 3 < used && used <= 400);
}

#[test]
fn growing_is_in_proportion_to_the_grow_factors() {
    let mut items = vec![growing(1, 50, 40, 1), growing(2, 50, 40, 3), fixed(3, 50, 40)];
    resolve_flexible_lengths(&mut items, FlexLine { start: 0, end: 3 }, 370, 10);
    // free space: 370 - (150 + 2 * 10) = 200
    assert_eq!(final_mains(&items), vec![100, 200, 50]);
    assert_eq!(final_mains(&items).iter().sum::<i64>() + 2 * 10, 370);
}

#[test]
fn no_growth_without_grow_factors() {
    let mut items = vec![fixed(1, 60, 40), fixed(2, 60, 40)];
    resolve_flexible_lengths(&mut items, FlexLine { start: 0, end: 2 }, 400, 0);
    assert_eq!(final_mains(&items), vec![60, 60]);
}

#[test]
fn unset_shrink_never_shrinks() {
    let mut items = vec![fixed(1, 300, 40), fixed(2, 300, 40)];
    resolve_flexible_lengths(&mut items, FlexLine { start: 0, end: 2 }, 400, 0);
    assert_eq!(final_mains(&items), vec![300, 300]);
}

#[test]
fn unset_shrink_keeps_its_size_beside_a_shrinking_item() {
    let mut items = vec![fixed(1, 300, 40), shrinking(2, 300, 40, 1)];
    resolve_flexible_lengths(&mut items, FlexLine { start: 0, end: 2 }, 400, 0);
    assert_eq!(final_mains(&items), vec![300, 100]);
}

#[test]
fn shrinking_is_in_proportion_to_factor_times_base() {
    let mut items = vec![shrinking(1, 100, 40, 1), shrinking(2, 100, 40, 3)];
    resolve_flexible_lengths(&mut items, FlexLine { start: 0, end: 2 }, 100, 0);
    assert_eq!(final_mains(&items), vec![75, 25]);

    let mut items = vec![shrinking(1, 100, 40, 1), shrinking(2, 300, 40, 1)];
    resolve_flexible_lengths(&mut items, FlexLine { start: 0, end: 2 }, 200, 0);
    assert_eq!(final_mains(&items), vec![50, 150]);
}

#[test]
fn shrinking_may_leave_a_negative_size() {
    let mut items = vec![shrinking(1, 10, 40, 10), fixed(2, 1000, 40)];
    resolve_flexible_lengths(&mut items, FlexLine { start: 0, end: 2 }, 0, 0);
    assert_eq!(final_mains(&items), vec![-1000, 1000]);
}

#[test]
fn zero_free_space_changes_nothing() {
    let mut items = vec![growing(1, 200, 40, 1), shrinking(2, 200, 40, 1)];
    resolve_flexible_lengths(&mut items, FlexLine { start: 0, end: 2 }, 400, 0);
    assert_eq!(final_mains(&items), vec![200, 200]);
}

#[test]
fn flexing_leaves_other_lines_alone() {
    let mut items = vec![growing(1, 60, 40, 1), growing(2, 60, 40, 1), growing(3, 60, 40, 1)];
    resolve_flexible_lengths(&mut items, FlexLine { start: 1, end: 2 }, 100, 0);
    assert_eq!(final_mains(&items), vec![60, 100, 60]);
}

#[test]
fn justify_offsets_of_each_mode() {
    let row = FlexDirection::Row;
    assert_eq!(
        justify_offsets(&JustifyContent::FlexStart, &row, 100, 10, 3),
        (0, 10)
    );
    assert_eq!(
        justify_offsets(&JustifyContent::FlexEnd, &row, 100, 10, 3),
        (100, 10)
    );
    assert_eq!(
        justify_offsets(&JustifyContent::Center, &row, 100, 10, 3),
        (50, 10)
    );
    assert_eq!(
        justify_offsets(&JustifyContent::SpaceBetween, &row, 100, 10, 3),
        (0, 60)
    );
    assert_eq!(
        justify_offsets(&JustifyContent::SpaceAround, &row, 100, 10, 3),
        (16, 43)
    );
    assert_eq!(
        justify_offsets(&JustifyContent::SpaceEvenly, &row, 100, 10, 3),
        (25, 35)
    );
}

#[test]
fn reversed_directions_swap_flex_start_and_flex_end() {
    for direction in [FlexDirection::RowReverse, FlexDirection::ColumnReverse] {
        assert_eq!(
            justify_offsets(&JustifyContent::FlexStart, &direction, 100, 10, 3),
            (100, 10)
        );
        assert_eq!(
            justify_offsets(&JustifyContent::FlexEnd, &direction, 100, 10, 3),
            (0, 10)
        );
        assert_eq!(
            justify_offsets(&JustifyContent::Center, &direction, 100, 10, 3),
            (50, 10)
        );
        assert_eq!(
            justify_offsets(&JustifyContent::SpaceBetween, &direction, 100, 10, 3),
            (0, 60)
        );
    }
    assert_eq!(
        justify_offsets(&JustifyContent::FlexEnd, &FlexDirection::Column, 100, 10, 3),
        (100, 10)
    );
}

#[test]
fn space_between_with_one_item_is_flex_start() {
    for direction in [
        FlexDirection::Row,
        FlexDirection::RowReverse,
        FlexDirection::Column,
        FlexDirection::ColumnReverse,
    ] {
        assert_eq!(
            justify_offsets(&JustifyContent::SpaceBetween, &direction, 340, 10, 1),
            (0, 10)
        );
    }
    assert_eq!(
        justify_offsets(&JustifyContent::SpaceBetween, &FlexDirection::Row, 340, 10, 1),
        justify_offsets(&JustifyContent::FlexStart, &FlexDirection::Row, 340, 10, 1)
    );

    let mut items = vec![fixed(1, 60, 40)];
    let mut container = row(400, 200);
    container.justify_content = JustifyContent::SpaceBetween;
    let rects = layout_items(&mut items, &container);
    assert_eq!(rects, vec![Rect::new(0, 0, 60, 40)]);
}

#[test]
fn justify_offsets_without_items() {
    assert_eq!(
        justify_offsets(&JustifyContent::SpaceEvenly, &FlexDirection::Row, 100, 10, 0),
        (0, 10)
    );
    assert_eq!(
        justify_offsets(&JustifyContent::FlexEnd, &FlexDirection::Row, 100, 10, 0),
        (0, 10)
    );
}

#[test]
fn justify_gap_saturates() {
    assert_eq!(
        justify_offsets(&JustifyContent::SpaceBetween, &FlexDirection::Row, i64::MAX, 10, 2),
        (0, i64::MAX)
    );
}

#[test]
fn justify_content_places_the_items_of_a_line() {
    let mut container = row(400, 200);
    container.main_gap = 10;

    container.justify_content = JustifyContent::FlexEnd;
    let mut items = vec![fixed(1, 60, 40), fixed(2, 60, 40), fixed(3, 60, 40)];
    let rects = layout_items(&mut items, &container);
    // used: 180 + 20 = 200, left over: 200
    assert_eq!(
        rects.iter().map(|r| r.x).collect::<Vec<i64>>(),
        vec![200, 270, 340]
    );

    container.justify_content = JustifyContent::Center;
    let rects = layout_items(&mut items, &container);
    assert_eq!(
        rects.iter().map(|r| r.x).collect::<Vec<i64>>(),
        vec![100, 170, 240]
    );

    container.justify_content = JustifyContent::SpaceBetween;
    let rects = layout_items(&mut items, &container);
    assert_eq!(
        rects.iter().map(|r| r.x).collect::<Vec<i64>>(),
        vec![0, 170, 340]
    );

    container.justify_content = JustifyContent::SpaceAround;
    let rects = layout_items(&mut items, &container);
    // extra: 200 / 3 = 66, offset 33, gap 76
    assert_eq!(
        rects.iter().map(|r| r.x).collect::<Vec<i64>>(),
        vec![33, 169, 305]
    );

    container.justify_content = JustifyContent::SpaceEvenly;
    let rects = layout_items(&mut items, &container);
    // extra: 200 / 4 = 50, offset 50, gap 60
    assert_eq!(
        rects.iter().map(|r| r.x).collect::<Vec<i64>>(),
        vec![50, 170, 290]
    );

    container.justify_content = JustifyContent::FlexStart;
    container.direction = FlexDirection::RowReverse;
    let rects = layout_items(&mut items, &container);
    assert_eq!(
        rects.iter().map(|r| r.x).collect::<Vec<i64>>(),
        vec![200, 270, 340]
    );
}

#[test]
fn overflowing_line_has_no_leftover() {
    let mut container = row(100, 200);
    container.justify_content = JustifyContent::Center;
    let mut items = vec![fixed(1, 60, 40), fixed(2, 60, 40)];
    let rects = layout_items(&mut items, &container);
    assert_eq!(
        rects,
        vec![Rect::new(0, 0, 60, 40), Rect::new(60, 0, 60, 40)]
    );
}

#[test]
fn available_space_of_a_definite_axis_is_the_extent() {
    let row = FlexDirection::Row;
    let mut style = Style::new();
    style.padding = Some(Sides::uniform(Length::Px(10)));
    style.border_width = Some(Length::Px(5));
    assert_eq!(determine_available_space(300, &style, &row, Axis::Main), 300);
    style.width = Some(Length::Px(300));
    assert_eq!(determine_available_space(300, &style, &row, Axis::Main), 300);
    assert!(is_definite_container_content_box_size(&style, &row, Axis::Main));
    assert!(is_definite_container_content_box_size(&style, &row, Axis::Cross));
}

#[test]
fn available_space_of_an_auto_axis_excludes_padding_and_border() {
    let row = FlexDirection::Row;
    let column = FlexDirection::Column;
    let mut style = Style::new();
    style.width = Some(Length::Auto);
    style.padding = Some(Sides {
        top: Length::Px(1),
        right: Length::Px(20),
        bottom: Length::Px(2),
        left: Length::Px(10),
    });
    style.border_width = Some(Length::Px(5));
    assert!(!is_definite_container_content_box_size(&style, &row, Axis::Main));
    assert!(is_definite_container_content_box_size(&style, &row, Axis::Cross));
    assert!(!is_definite_container_content_box_size(&style, &column, Axis::Cross));
    assert!(is_definite_container_content_box_size(&style, &column, Axis::Main));
    assert_eq!(determine_available_space(300, &style, &row, Axis::Main), 260);
    assert_eq!(determine_available_space(300, &style, &column, Axis::Cross), 260);
    assert_eq!(determine_available_space(30, &style, &row, Axis::Main), 0);
    assert_eq!(determine_available_space(-5, &style, &row, Axis::Main), 0);
    assert_eq!(determine_available_space(-5, &style, &row, Axis::Cross), -5);

    style.height = Some(Length::Auto);
    assert_eq!(determine_available_space(300, &style, &row, Axis::Cross), 287);
    assert_eq!(determine_available_space(300, &style, &column, Axis::Main), 287);
}

#[test]
fn padding_and_border_sums() {
    let row = FlexDirection::RowReverse;
    let column = FlexDirection::ColumnReverse;
    let mut style = Style::new();
    assert_eq!(axis_padding_sum_px(&style, &row, Axis::Main), 0);
    assert_eq!(axis_border_sum_px(&style, &row, Axis::Main), 0);
    style.padding = Some(Sides {
        top: Length::Px(1),
        right: Length::Px(20),
        bottom: Length::Px(2),
        left: Length::Px(10),
    });
    style.border_width = Some(Length::Px(7));
    assert_eq!(axis_padding_sum_px(&style, &row, Axis::Main), 30);
    assert_eq!(axis_padding_sum_px(&style, &row, Axis::Cross), 3);
    assert_eq!(axis_padding_sum_px(&style, &column, Axis::Main), 3);
    assert_eq!(axis_padding_sum_px(&style, &column, Axis::Cross), 30);
    assert_eq!(axis_border_sum_px(&style, &row, Axis::Main), 14);
    assert_eq!(axis_border_sum_px(&style, &column, Axis::Cross), 14);
}

#[test]
fn gap_wins_over_row_gap_and_column_gap() {
    let mut style = Style::new();
    assert_eq!(gaps_px(&style), (0, 0));
    style.row_gap = Some(Length::Px(3));
    style.column_gap = Some(Length::Px(4));
    assert_eq!(gaps_px(&style), (3, 4));
    style.gap = Some(Length::Px(9));
    assert_eq!(gaps_px(&style), (9, 9));
}

#[test]
fn cross_size_is_auto_only_when_unset() {
    let mut style = Style::new();
    assert!(cross_size_is_auto(&style, &FlexDirection::Row));
    assert!(cross_size_is_auto(&style, &FlexDirection::Column));
    style.height = Some(Length::Auto);
    assert!(!cross_size_is_auto(&style, &FlexDirection::Row));
    assert!(cross_size_is_auto(&style, &FlexDirection::ColumnReverse));
    style.width = Some(Length::Px(5));
    assert!(!cross_size_is_auto(&style, &FlexDirection::Column));
}

#[test]
fn container_parameters_come_from_bounds_and_style() {
    let mut style = Style::new();
    style.row_gap = Some(Length::Px(3));
    style.column_gap = Some(Length::Px(4));
    let bounds = Rect::new(7, 8, 400, 200);

    let c = FlexContainer::resolve(&bounds, &style);
    assert_eq!(
        c,
        FlexContainer {
            x: 7,
            y: 8,
            available_main: 400,
            available_cross: 200,
            main_gap: 4,
            cross_gap: 3,
            direction: FlexDirection::Row,
            wrap: FlexWrap::NoWrap,
            justify_content: JustifyContent::FlexStart,
            align_items: AlignItems::Stretch,
            cross_definite: true,
        }
    );

    style.flex_direction = Some(FlexDirection::ColumnReverse);
    style.flex_wrap = Some(FlexWrap::WrapReverse);
    style.justify_content = Some(JustifyContent::Center);
    style.align_items = Some(AlignItems::FlexEnd);
    style.width = Some(Length::Auto);
    let c = FlexContainer::resolve(&bounds, &style);
    assert_eq!(
        c,
        FlexContainer {
            x: 7,
            y: 8,
            available_main: 200,
            available_cross: 400,
            main_gap: 3,
            cross_gap: 4,
            direction: FlexDirection::ColumnReverse,
            wrap: FlexWrap::WrapReverse,
            justify_content: JustifyContent::Center,
            align_items: AlignItems::FlexEnd,
            cross_definite: false,
        }
    );
}

#[test]
fn lines_break_where_the_next_item_does_not_fit() {
    let items = vec![fixed(1, 60, 40), fixed(2, 60, 40), fixed(3, 60, 40), fixed(4, 60, 40)];
    assert_eq!(
        break_lines(&items, 150, FlexWrap::Wrap, 10),
        vec![FlexLine { start: 0, end: 2 }, FlexLine { start: 2, end: 4 }]
    );
    assert_eq!(
        break_lines(&items, 130, FlexWrap::WrapReverse, 10),
        vec![FlexLine { start: 0, end: 2 }, FlexLine { start: 2, end: 4 }]
    );
    assert_eq!(
        break_lines(&items, 129, FlexWrap::Wrap, 10),
        vec![
            FlexLine { start: 0, end: 1 },
            FlexLine { start: 1, end: 2 },
            FlexLine { start: 2, end: 3 },
            FlexLine { start: 3, end: 4 },
        ]
    );
    assert_eq!(
        break_lines(&items, 270, FlexWrap::Wrap, 10),
        vec![FlexLine { start: 0, end: 4 }]
    );
}

#[test]
fn an_item_wider_than_the_container_has_a_line_of_its_own() {
    let items = vec![fixed(1, 60, 40), fixed(2, 500, 40), fixed(3, 60, 40)];
    assert_eq!(
        break_lines(&items, 100, FlexWrap::Wrap, 0),
        vec![
            FlexLine { start: 0, end: 1 },
            FlexLine { start: 1, end: 2 },
            FlexLine { start: 2, end: 3 },
        ]
    );
    assert_eq!(
        break_lines(&items, -1, FlexWrap::Wrap, 0),
        vec![
            FlexLine { start: 0, end: 1 },
            FlexLine { start: 1, end: 2 },
            FlexLine { start: 2, end: 3 },
        ]
    );
}

#[test]
fn without_wrapping_there_is_one_line() {
    let items = vec![fixed(1, 60, 40), fixed(2, 60, 40), fixed(3, 60, 40)];
    assert_eq!(
        break_lines(&items, 100, FlexWrap::NoWrap, 10),
        vec![FlexLine { start: 0, end: 3 }]
    );
}

#[test]
fn no_items_no_lines() {
    let mut items: Vec<FlexItem> = Vec::new();
    assert_eq!(break_lines(&items, 100, FlexWrap::Wrap, 10), vec![]);
    assert_eq!(break_lines(&items, 100, FlexWrap::NoWrap, 10), vec![]);
    assert_eq!(layout_items(&mut items, &row(400, 200)), vec![]);
}

#[test]
fn lines_stack_along_the_cross_axis() {
    let mut container = row(150, 200);
    container.wrap = FlexWrap::Wrap;
    container.main_gap = 10;
    container.cross_gap = 5;
    let mut items = vec![fixed(1, 60, 40), fixed(2, 60, 50), fixed(3, 60, 30), fixed(4, 60, 20)];
    let rects = layout_items(&mut items, &container);
    assert_eq!(
        rects,
        vec![
            Rect::new(0, 0, 60, 40),
            Rect::new(70, 0, 60, 50),
            Rect::new(0, 55, 60, 30),
            Rect::new(70, 55, 60, 20),
        ]
    );
}

#[test]
fn each_line_is_flexed_on_its_own() {
    let mut container = row(150, 200);
    container.wrap = FlexWrap::Wrap;
    let mut items = vec![
        growing(1, 60, 40, 1),
        fixed(2, 60, 40),
        fixed(3, 60, 40),
        growing(4, 40, 40, 1),
        growing(5, 40, 40, 1),
    ];
    let rects = layout_items(&mut items, &container);
    assert_eq!(final_mains(&items), vec![90, 60, 60, 45, 45]);
    assert_eq!(
        rects,
        vec![
            Rect::new(0, 0, 90, 40),
            Rect::new(90, 0, 60, 40),
            Rect::new(0, 40, 60, 40),
            Rect::new(60, 40, 45, 40),
            Rect::new(105, 40, 45, 40),
        ]
    );
}

#[test]
fn stretch_fills_the_line_where_the_cross_size_is_unset() {
    let mut container = row(400, 200);
    container.wrap = FlexWrap::Wrap;
    let mut unset = Style::new();
    unset.width = Some(Length::Px(60));
    let mut items = vec![FlexItem::new(1, unset, 60, 30), fixed(2, 60, 50)];
    let rects = layout_items(&mut items, &container);
    // one line, definite cross size: the line is 200 high
    assert_eq!(
        rects,
        vec![Rect::new(0, 0, 60, 200), Rect::new(60, 0, 60, 50)]
    );
    assert_eq!(items[0].final_cross, 200);
    assert_eq!(items[1].final_cross, 50);

    container.available_main = 100;
    let mut items = vec![FlexItem::new(1, unset, 60, 30), fixed(2, 60, 50)];
    let rects = layout_items(&mut items, &container);
    // two lines: each is as high as its largest item
    assert_eq!(
        rects,
        vec![Rect::new(0, 0, 60, 30), Rect::new(0, 30, 60, 50)]
    );
}

#[test]
fn alignment_places_items_across_the_line() {
    let mut container = row(400, 100);
    let mut items = vec![fixed(1, 60, 40), fixed(2, 60, 75)];

    container.align_items = AlignItems::FlexEnd;
    let rects = layout_items(&mut items, &container);
    assert_eq!(
        rects,
        vec![Rect::new(0, 60, 60, 40), Rect::new(60, 25, 60, 75)]
    );

    container.align_items = AlignItems::Center;
    let rects = layout_items(&mut items, &container);
    assert_eq!(
        rects,
        vec![Rect::new(0, 30, 60, 40), Rect::new(60, 12, 60, 75)]
    );

    container.align_items = AlignItems::Baseline;
    let rects = layout_items(&mut items, &container);
    assert_eq!(
        rects,
        vec![Rect::new(0, 0, 60, 40), Rect::new(60, 0, 60, 75)]
    );

    container.align_items = AlignItems::FlexStart;
    let rects = layout_items(&mut items, &container);
    assert_eq!(
        rects,
        vec![Rect::new(0, 0, 60, 40), Rect::new(60, 0, 60, 75)]
    );
}

#[test]
fn align_self_overrides_align_items() {
    let mut container = row(400, 100);
    container.align_items = AlignItems::FlexStart;
    let mut unset = Style::new();
    unset.width = Some(Length::Px(60));

    let mut end = fixed(1, 60, 40);
    end.style.align_self = Some(AlignSelf::FlexEnd);
    let mut center = fixed(2, 60, 40);
    center.style.align_self = Some(AlignSelf::Center);
    let mut auto = fixed(3, 60, 40);
    auto.style.align_self = Some(AlignSelf::Auto);
    let mut stretch = FlexItem::new(4, unset, 60, 30);
    stretch.style.align_self = Some(AlignSelf::Stretch);
    let plain = FlexItem::new(5, unset, 60, 30);

    let mut items = vec![end, center, auto, stretch, plain];
    let rects = layout_items(&mut items, &container);
    assert_eq!(
        rects,
        vec![
            Rect::new(0, 60, 60, 40),
            Rect::new(60, 30, 60, 40),
            Rect::new(120, 0, 60, 40),
            Rect::new(180, 0, 60, 100),
            Rect::new(240, 0, 60, 30),
        ]
    );
}

#[test]
fn an_item_larger_than_its_line_is_centred_about_it() {
    let mut container = row(400, 40);
    container.align_items = AlignItems::Center;
    let mut items = vec![fixed(1, 60, 75)];
    let rects = layout_items(&mut items, &container);
    // (40 - 75) / 2 rounds toward zero
    assert_eq!(rects, vec![Rect::new(0, -17, 60, 75)]);
}

#[test]
fn columns_map_the_main_axis_to_y_and_height() {
    let mut container = row(200, 300);
    container.x = 10;
    container.y = 20;
    container.direction = FlexDirection::Column;
    container.main_gap = 5;
    container.justify_content = JustifyContent::FlexEnd;
    let mut a = growing(1, 0, 0, 1);
    a.base_main = 40;
    a.base_cross = 60;
    let mut b = fixed(2, 0, 0);
    b.base_main = 50;
    b.base_cross = 70;
    let mut items = vec![a, b];
    let rects = layout_items(&mut items, &container);
    // free space: 200 - (90 + 5) = 105
    assert_eq!(
        rects,
        vec![Rect::new(10, 20, 60, 145), Rect::new(10, 170, 70, 50)]
    );
}

#[test]
fn the_container_origin_shifts_every_item() {
    let mut container = row(400, 200);
    container.x = -30;
    container.y = 1000;
    let mut items = vec![fixed(1, 60, 40), fixed(2, 60, 40)];
    let rects = layout_items(&mut items, &container);
    assert_eq!(
        rects,
        vec![Rect::new(-30, 1000, 60, 40), Rect::new(30, 1000, 60, 40)]
    );
}

#[test]
fn positions_saturate_at_the_ends_of_the_range() {
    let mut container = row(400, 200);
    container.x = i64::MAX - 10;
    let mut items = vec![fixed(1, 60, 40), fixed(2, 60, 40)];
    let rects = layout_items(&mut items, &container);
    assert_eq!(
        rects,
        vec![
            Rect::new(i64::MAX - 10, 0, 60, 40),
            Rect::new(i64::MAX, 0, 60, 40),
        ]
    );
    assert_eq!(saturate_i128(i64::MAX as i128 + 1), i64::MAX);
    assert_eq!(saturate_i128(i64::MIN as i128 - 1), i64::MIN);
    assert_eq!(saturate_i128(-7), -7);
}

#[test]
fn a_second_layout_gives_the_same_rectangles() {
    let mut container = row(150, 200);
    container.wrap = FlexWrap::Wrap;
    container.main_gap = 7;
    container.cross_gap = 3;
    container.justify_content = JustifyContent::SpaceAround;
    container.align_items = AlignItems::Center;
    let mut items = vec![
        growing(1, 60, 40, 2),
        shrinking(2, 70, 50, 1),
        growing(3, 200, 30, 1),
        fixed(4, 40, 20),
    ];
    let first = layout_items(&mut items, &container);
    let sized = items.clone();
    let second = layout_items(&mut items, &container);
    assert_eq!(first, second);
    assert_eq!(items, sized);
}

#[test]
fn layout_keeps_what_the_items_stand_for() {
    let mut items = vec![growing(7, 60, 40, 1), fixed(3, 60, 40)];
    let before = items.clone();
    layout_items(&mut items, &row(400, 200));
    for (after, before) in items.iter().zip(before.iter()) {
        assert_eq!(after.node, before.node);
        assert_eq!(after.style, before.style);
        assert_eq!(after.base_main, before.base_main);
        assert_eq!(after.base_cross, before.base_cross);
    }
    assert_eq!(items[0].final_main, 340);
    assert_eq!(items[0].final_cross, 40);
}
