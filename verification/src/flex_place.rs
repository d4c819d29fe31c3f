//! Placement: the cross size of each line, the alignment of items within
//! it, their positions along the main axis, and the rectangles that result.

use vstd::prelude::*;
use crate::flex_layout::{
    available_space,
    cross_is_auto,
    cross_size_is_auto,
    determine_available_space,
    gaps,
    gaps_px,
    is_definite,
    is_definite_container_content_box_size,
    is_row,
    justify,
    justify_offsets,
    Axis,
};
use crate::flex_lines::{
    break_lines,
    flex_lines,
    follows,
    lines_tile,
    FlexItem,
    FlexLine,
    MAX_ITEMS,
};
use crate::flex_resolve::{
    resolve_flexible_lengths,
    resolved_extent,
    resolved_main,
    sum_resolved_main,
};
use crate::geometry::{div_toward_zero, max_int, saturate, saturate_i128, Rect};
use crate::style::{AlignItems, AlignSelf, FlexDirection, FlexWrap, JustifyContent, Style};

verus! {

/// What a flex container hands to the layout of its items: its origin, the
/// space it offers along both axes, its gaps and its alignment properties,
/// each with its default where the style leaves it unset.
#[derive(Clone, Copy, Debug, PartialEq, Eq, Structural)]
pub struct FlexContainer {
    pub x: i64,
    pub y: i64,
    pub available_main: i64,
    pub available_cross: i64,
    pub main_gap: u32,
    pub cross_gap: u32,
    pub direction: FlexDirection,
    pub wrap: FlexWrap,
    pub justify_content: JustifyContent,
    pub align_items: AlignItems,
    pub cross_definite: bool,
}

/// The direction of a container; `row` where unset.
pub open spec fn direction_of(style: Style) -> FlexDirection {
    match style.flex_direction {
        Some(d) => d,
        None => FlexDirection::Row,
    }
}

impl FlexContainer {
    /// The container parameters that a box with the given bounds and style
    /// has. The main axis takes the column gap in a row direction and the
    /// row gap in a column direction.
    pub open spec fn of(bounds: Rect, style: Style) -> FlexContainer {
        let direction = direction_of(style);
        let row = is_row(direction);
        FlexContainer {
            x: bounds.x,
            y: bounds.y,
            available_main: available_space(
                if row {
                    bounds.width as int
                } else {
                    bounds.height as int
                },
                style,
                direction,
                Axis::Main,
            ) as i64,
            available_cross: available_space(
                if row {
                    bounds.height as int
                } else {
                    bounds.width as int
                },
                style,
                direction,
                Axis::Cross,
            ) as i64,
            main_gap: (if row {
                gaps(style).1
            } else {
                gaps(style).0
            }) as u32,
            cross_gap: (if row {
                gaps(style).0
            } else {
                gaps(style).1
            }) as u32,
            direction,
            wrap: match style.flex_wrap {
                Some(w) => w,
                None => FlexWrap::NoWrap,
            },
            justify_content: match style.justify_content {
                Some(j) => j,
                None => JustifyContent::FlexStart,
            },
            align_items: match style.align_items {
                Some(a) => a,
                None => AlignItems::Stretch,
            },
            cross_definite: is_definite(style, direction, Axis::Cross),
        }
    }

    /// Reads the container parameters off a box's bounds and style.
    pub fn resolve(bounds: &Rect, style: &Style) -> (c: FlexContainer)
        ensures
            c == FlexContainer::of(*bounds, *style),
    {
        let direction = match style.flex_direction {
            Some(d) => d,
            None => FlexDirection::Row,
        };
        let row = match direction {
            FlexDirection::Row | FlexDirection::RowReverse => true,
            FlexDirection::Column | FlexDirection::ColumnReverse => false,
        };
        let (container_main, container_cross) = if row {
            (bounds.width, bounds.height)
        } else {
            (bounds.height, bounds.width)
        };
        let (row_gap, column_gap) = gaps_px(style);
        let (main_gap, cross_gap) = if row {
            (column_gap, row_gap)
        } else {
            (row_gap, column_gap)
        };
        FlexContainer {
            x: bounds.x,
            y: bounds.y,
            available_main: determine_available_space(
                container_main,
                style,
                &direction,
                Axis::Main,
            ),
            available_cross: determine_available_space(
                container_cross,
                style,
                &direction,
                Axis::Cross,
            ),
            main_gap,
            cross_gap,
            direction,
            wrap: match style.flex_wrap {
                Some(w) => w,
                None => FlexWrap::NoWrap,
            },
            justify_content: match style.justify_content {
                Some(j) => j,
                None => JustifyContent::FlexStart,
            },
            align_items: match style.align_items {
                Some(a) => a,
                None => AlignItems::Stretch,
            },
            cross_definite: is_definite_container_content_box_size(
                style,
                &direction,
                Axis::Cross,
            ),
        }
    }
}

/// The largest base cross size among the items `start..end`; 0 for none.
pub open spec fn max_base_cross(items: Seq<FlexItem>, start: int, end: int) -> int
    decreases end - start,
{
    if end <= start {
        0
    } else {
        max_int(max_base_cross(items, start, end - 1), items[end - 1].base_cross as int)
    }
}

/// The cross size of the line `start..end`. A container with a single line
/// and a definite cross size gives the line all its available cross space;
/// otherwise the line is as large as its largest item.
pub open spec fn line_cross_size(
    items: Seq<FlexItem>,
    c: FlexContainer,
    line_count: int,
    start: int,
    end: int,
) -> int {
    if line_count == 1 && c.cross_definite {
        c.available_cross as int
    } else {
        max_base_cross(items, start, end)
    }
}

/// The alignment that applies to an item: its `align-self` unless that is
/// unset or `auto`, else the container's `align-items`.
pub open spec fn effective_align(style: Style, align_items: AlignItems) -> AlignItems {
    match style.align_self {
        None => align_items,
        Some(AlignSelf::Auto) => align_items,
        Some(AlignSelf::FlexStart) => AlignItems::FlexStart,
        Some(AlignSelf::FlexEnd) => AlignItems::FlexEnd,
        Some(AlignSelf::Center) => AlignItems::Center,
        Some(AlignSelf::Baseline) => AlignItems::Baseline,
        Some(AlignSelf::Stretch) => AlignItems::Stretch,
    }
}

/// The final cross size of an item in a line of the given cross size: the
/// line's size if the item stretches and its cross dimension is unset,
/// else its base cross size.
pub open spec fn aligned_cross(item: FlexItem, c: FlexContainer, line_cross: int) -> int {
    if effective_align(item.style, c.align_items) is Stretch && cross_is_auto(
        item.style,
        c.direction,
    ) {
        line_cross
    } else {
        item.base_cross as int
    }
}

/// How far from the line's cross start an item of the given cross size
/// stands. `baseline` aligns as `flex-start` does.
pub open spec fn cross_shift(align: AlignItems, line_cross: int, item_cross: int) -> int {
    match align {
        AlignItems::FlexStart | AlignItems::Baseline | AlignItems::Stretch => 0,
        AlignItems::FlexEnd => line_cross - item_cross,
        AlignItems::Center => div_toward_zero(line_cross - item_cross, 2),
    }
}

/// The space left over on the line `start..end` after flexing; at least 0.
pub open spec fn line_leftover(items: Seq<FlexItem>, c: FlexContainer, start: int, end: int) -> int {
    saturate(
        max_int(
            c.available_main - resolved_extent(
                items,
                c.main_gap as int,
                c.available_main as int,
                start,
                end,
            ),
            0,
        ),
    )
}

/// The start offset and the gap between items of the line `start..end`.
pub open spec fn line_offsets(items: Seq<FlexItem>, c: FlexContainer, start: int, end: int) -> (
    int,
    int,
) {
    justify(
        c.justify_content,
        c.direction,
        line_leftover(items, c, start, end),
        c.main_gap as int,
        end - start,
    )
}

/// The main-axis position of item `i` within the line `start..end`: the
/// start offset, then the final main sizes of the items before it, and the
/// gap once for each of them.
pub open spec fn main_position(
    items: Seq<FlexItem>,
    c: FlexContainer,
    start: int,
    end: int,
    i: int,
) -> int {
    let offsets = line_offsets(items, c, start, end);
    offsets.0 + sum_resolved_main(
        items,
        c.main_gap as int,
        c.available_main as int,
        start,
        end,
        i,
    ) + (i - start) * offsets.1
}

/// The rectangle with the given position and size along the main and the
/// cross axis, relative to the container's origin.
pub open spec fn axis_rect(
    c: FlexContainer,
    main_pos: int,
    cross_pos: int,
    main_size: int,
    cross_size: int,
) -> Rect {
    if is_row(c.direction) {
        Rect {
            x: saturate(c.x + main_pos) as i64,
            y: saturate(c.y + cross_pos) as i64,
            width: main_size as i64,
            height: cross_size as i64,
        }
    } else {
        Rect {
            x: saturate(c.x + cross_pos) as i64,
            y: saturate(c.y + main_pos) as i64,
            width: cross_size as i64,
            height: main_size as i64,
        }
    }
}

/// The rectangle of item `i` of the line `start..end`, where the line
/// starts `cross_offset` units into the container along the cross axis.
pub open spec fn item_rect(
    items: Seq<FlexItem>,
    c: FlexContainer,
    line_count: int,
    start: int,
    end: int,
    cross_offset: int,
    i: int,
) -> Rect {
    let line_cross = line_cross_size(items, c, line_count, start, end);
    let cross = aligned_cross(items[i], c, line_cross);
    axis_rect(
        c,
        main_position(items, c, start, end, i),
        cross_offset + cross_shift(
            effective_align(items[i].style, c.align_items),
            line_cross,
            cross,
        ),
        resolved_main(items, c.main_gap as int, c.available_main as int, start, end, i),
        cross,
    )
}

/// How far into the container line `l` starts along the cross axis: the
/// cross sizes of the lines before it, and the cross gap after each.
pub open spec fn cross_offset_of(
    items: Seq<FlexItem>,
    c: FlexContainer,
    lines: Seq<FlexLine>,
    l: int,
) -> int
    decreases l,
{
    if l <= 0 {
        0
    } else {
        cross_offset_of(items, c, lines, l - 1) + line_cross_size(
            items,
            c,
            lines.len() as int,
            lines[l - 1].start as int,
            lines[l - 1].end as int,
        ) + c.cross_gap
    }
}

/// The line that holds item `i`, counted from `l` down.
pub open spec fn line_of_from(lines: Seq<FlexLine>, i: int, l: int) -> int
    decreases l,
{
    if l <= 0 || lines[l].start <= i {
        l
    } else {
        line_of_from(lines, i, l - 1)
    }
}

/// The line that holds item `i`.
pub open spec fn line_of(lines: Seq<FlexLine>, i: int) -> int {
    line_of_from(lines, i, lines.len() - 1)
}

/// The rectangle of item `i` in the layout of `items` within `c`.
pub open spec fn flex_rect(items: Seq<FlexItem>, c: FlexContainer, i: int) -> Rect {
    let lines = flex_lines(items, c.main_gap as int, c.available_main as int, c.wrap);
    let l = line_of(lines, i);
    item_rect(
        items,
        c,
        lines.len() as int,
        lines[l].start as int,
        lines[l].end as int,
        cross_offset_of(items, c, lines, l),
        i,
    )
}

/// The rectangles of all items, in item order.
pub open spec fn flex_rects(items: Seq<FlexItem>, c: FlexContainer) -> Seq<Rect> {
    Seq::new(items.len(), |i: int| flex_rect(items, c, i))
}

/// The final size of a rectangle along the main axis of `direction`.
pub open spec fn main_extent(r: Rect, direction: FlexDirection) -> i64 {
    if is_row(direction) {
        r.width
    } else {
        r.height
    }
}

/// The final size of a rectangle along the cross axis of `direction`.
pub open spec fn cross_extent(r: Rect, direction: FlexDirection) -> i64 {
    if is_row(direction) {
        r.height
    } else {
        r.width
    }
}

/// The items after layout: each carries the final sizes of its rectangle.
pub open spec fn sized_items(items: Seq<FlexItem>, c: FlexContainer) -> Seq<FlexItem> {
    Seq::new(
        items.len(),
        |i: int|
            FlexItem {
                final_main: main_extent(flex_rect(items, c, i), c.direction),
                final_cross: cross_extent(flex_rect(items, c, i), c.direction),
                ..items[i]
            },
    )
}

/// The sum of the final main sizes that the items `start..end` carry.
pub open spec fn sum_final_main(items: Seq<FlexItem>, start: int, end: int) -> int
    decreases end - start,
{
    if end <= start {
        0
    } else {
        sum_final_main(items, start, end - 1) + items[end - 1].final_main
    }
}

/// Two items have the same basis: they stand for the same node with the
/// same style and the same base sizes. Their final sizes may differ.
pub open spec fn same_basis(a: FlexItem, b: FlexItem) -> bool {
    &&& a.node == b.node
    &&& a.style == b.style
    &&& a.base_main == b.base_main
    &&& a.base_cross == b.base_cross
}

/// Two item lists agree on the basis of the items `start..end`.
pub open spec fn agree_on(a: Seq<FlexItem>, b: Seq<FlexItem>, start: int, end: int) -> bool {
    &&& a.len() == b.len()
    &&& 0 <= start <= end <= a.len()
    &&& forall|i: int| start <= i < end ==> same_basis(#[trigger] a[i], b[i])
}

/// The sums over a line depend on the items of the line alone.
pub proof fn lemma_sums_agree(a: Seq<FlexItem>, b: Seq<FlexItem>, start: int, end: int)
    requires
        agree_on(a, b, start, end),
    ensures
        crate::flex_lines::sum_base_main(a, start, end) == crate::flex_lines::sum_base_main(
            b,
            start,
            end,
        ),
        crate::flex_resolve::sum_grow(a, start, end) == crate::flex_resolve::sum_grow(
            b,
            start,
            end,
        ),
        crate::flex_resolve::sum_shrink_weight(a, start, end)
            == crate::flex_resolve::sum_shrink_weight(b, start, end),
        max_base_cross(a, start, end) == max_base_cross(b, start, end),
    decreases end - start,
{
    if end > start {
        lemma_sums_agree(a, b, start, end - 1);
    }
}

/// The final main sizes of a line depend on the items of the line alone.
pub proof fn lemma_resolved_agree(
    a: Seq<FlexItem>,
    b: Seq<FlexItem>,
    gap: int,
    available_main: int,
    start: int,
    end: int,
    upto: int,
)
    requires
        agree_on(a, b, start, end),
        start <= upto <= end,
    ensures
        sum_resolved_main(a, gap, available_main, start, end, upto) == sum_resolved_main(
            b,
            gap,
            available_main,
            start,
            end,
            upto,
        ),
        forall|i: int|
            start <= i < end ==> resolved_main(a, gap, available_main, start, end, i)
                == resolved_main(b, gap, available_main, start, end, i),
    decreases upto - start,
{
    lemma_sums_agree(a, b, start, end);
    if upto > start {
        lemma_resolved_agree(a, b, gap, available_main, start, end, upto - 1);
    }
}

/// The rectangles of a line depend on the items of the line alone.
pub proof fn lemma_item_rect_agrees(
    a: Seq<FlexItem>,
    b: Seq<FlexItem>,
    c: FlexContainer,
    line_count: int,
    start: int,
    end: int,
    cross_offset: int,
    i: int,
)
    requires
        agree_on(a, b, start, end),
        start <= i < end,
    ensures
        item_rect(a, c, line_count, start, end, cross_offset, i) == item_rect(
            b,
            c,
            line_count,
            start,
            end,
            cross_offset,
            i,
        ),
{
    lemma_sums_agree(a, b, start, end);
    lemma_resolved_agree(a, b, c.main_gap as int, c.available_main as int, start, end, end);
    lemma_resolved_agree(a, b, c.main_gap as int, c.available_main as int, start, end, i);
}

/// The end of a line depends on the basis of the items alone.
pub proof fn lemma_line_end_from_agrees(
    a: Seq<FlexItem>,
    b: Seq<FlexItem>,
    gap: int,
    available_main: int,
    start: int,
    next: int,
)
    requires
        agree_on(a, b, 0, a.len() as int),
        0 <= start <= next,
    ensures
        crate::flex_lines::line_end_from(a, gap, available_main, start, next)
            == crate::flex_lines::line_end_from(b, gap, available_main, start, next),
    decreases a.len() - next,
{
    if next < a.len() {
        lemma_sums_agree(a, b, start, next + 1);
        lemma_line_end_from_agrees(a, b, gap, available_main, start, next + 1);
    }
}

/// The lines depend on the basis of the items alone.
pub proof fn lemma_lines_agree(
    a: Seq<FlexItem>,
    b: Seq<FlexItem>,
    gap: int,
    available_main: int,
    wrap: FlexWrap,
    start: int,
)
    requires
        agree_on(a, b, 0, a.len() as int),
        0 <= start,
    ensures
        crate::flex_lines::lines_from(a, gap, available_main, wrap, start)
            == crate::flex_lines::lines_from(b, gap, available_main, wrap, start),
    decreases a.len() - start,
{
    if start < a.len() {
        lemma_line_end_from_agrees(a, b, gap, available_main, start, start + 1);
        crate::flex_lines::lemma_line_end_range(a, gap, available_main, wrap, start);
        let end = crate::flex_lines::line_end(a, gap, available_main, wrap, start);
        lemma_lines_agree(a, b, gap, available_main, wrap, end);
    }
}

/// Where a line starts along the cross axis depends on the basis of the
/// items alone.
pub proof fn lemma_cross_offset_agrees(
    a: Seq<FlexItem>,
    b: Seq<FlexItem>,
    c: FlexContainer,
    lines: Seq<FlexLine>,
    l: int,
)
    requires
        agree_on(a, b, 0, a.len() as int),
        lines_tile(lines, a.len() as int),
        0 <= l <= lines.len(),
    ensures
        cross_offset_of(a, c, lines, l) == cross_offset_of(b, c, lines, l),
    decreases l,
{
    if l > 0 {
        lemma_cross_offset_agrees(a, b, c, lines, l - 1);
        let line = lines[l - 1];
        lemma_sums_agree(a, b, line.start as int, line.end as int);
    }
}

/// The layout depends on the basis of the items alone: what final sizes
/// the items carry on entry makes no difference to their rectangles.
pub proof fn lemma_same_basis_same_rects(a: Seq<FlexItem>, b: Seq<FlexItem>, c: FlexContainer)
    requires
        a.len() == b.len() <= MAX_ITEMS,
        forall|i: int| 0 <= i < a.len() ==> same_basis(#[trigger] a[i], b[i]),
    ensures
        flex_rects(a, c) == flex_rects(b, c),
{
    let n = a.len() as int;
    assert(agree_on(a, b, 0, n));
    let gap = c.main_gap as int;
    let avail = c.available_main as int;
    lemma_lines_agree(a, b, gap, avail, c.wrap, 0);
    let lines = flex_lines(a, gap, avail, c.wrap);
    crate::flex_lines::lemma_flex_lines_tile(a, gap, avail, c.wrap);
    assert forall|i: int| 0 <= i < n implies flex_rect(a, c, i) == flex_rect(b, c, i) by {
        lemma_item_in_some_line(lines, n, i, lines.len() - 1);
        let l = line_of(lines, i);
        lemma_cross_offset_agrees(a, b, c, lines, l);
        lemma_item_rect_agrees(
            a,
            b,
            c,
            lines.len() as int,
            lines[l].start as int,
            lines[l].end as int,
            cross_offset_of(a, c, lines, l),
            i,
        );
    }
    assert(flex_rects(a, c) =~= flex_rects(b, c));
}

/// In a tiling every item is in the range of the line that holds it.
pub proof fn lemma_item_in_some_line(lines: Seq<FlexLine>, len: int, i: int, from: int)
    requires
        lines_tile(lines, len),
        0 <= i < len,
        0 <= from < lines.len(),
        i < lines[from].end,
    ensures
        0 <= line_of_from(lines, i, from) <= from,
        lines[line_of_from(lines, i, from)].start <= i < lines[line_of_from(lines, i, from)].end,
    decreases from,
{
    if from > 0 && lines[from].start > i {
        assert(follows(lines, from));
        lemma_item_in_some_line(lines, len, i, from - 1);
    }
}

/// Laying out is idempotent: a second layout of items that carry the
/// final sizes of a first one gives the same rectangles and the same
/// final sizes.
pub proof fn lemma_layout_idempotent(items: Seq<FlexItem>, c: FlexContainer)
    requires
        items.len() <= MAX_ITEMS,
    ensures
        flex_rects(sized_items(items, c), c) == flex_rects(items, c),
        sized_items(sized_items(items, c), c) == sized_items(items, c),
{
    let sized = sized_items(items, c);
    lemma_same_basis_same_rects(sized, items, c);
    assert forall|i: int| 0 <= i < items.len() implies sized_items(sized, c)[i] == sized[i] by {
        assert(flex_rects(sized, c)[i] == flex_rects(items, c)[i]);
    }
    assert(sized_items(sized, c) =~= sized);
}

/// After flexing, the final main sizes that the items of the line carry
/// add up as the resolved sizes do.
pub proof fn lemma_sum_final_is_resolved(
    items: Seq<FlexItem>,
    flexed: Seq<FlexItem>,
    gap: int,
    available_main: int,
    start: int,
    end: int,
    upto: int,
)
    requires
        0 <= start <= upto <= end <= items.len(),
        flexed.len() == items.len(),
        forall|i: int|
            start <= i < end ==> (#[trigger] flexed[i]).final_main == resolved_main(
                items,
                gap,
                available_main,
                start,
                end,
                i,
            ),
    ensures
        sum_final_main(flexed, start, upto) == sum_resolved_main(
            items,
            gap,
            available_main,
            start,
            end,
            upto,
        ),
        -(upto - start) * 0x8000_0000_0000_0000 <= sum_final_main(flexed, start, upto) <= (upto
            - start) * 0x8000_0000_0000_0000,
    decreases upto - start,
{
    if upto > start {
        lemma_sum_final_is_resolved(items, flexed, gap, available_main, start, end, upto - 1);
        assert((upto - start) * 0x8000_0000_0000_0000 == (upto - 1 - start)
            * 0x8000_0000_0000_0000 + 0x8000_0000_0000_0000) by (nonlinear_arith);
    }
}

/// In a tiling, the line that holds an item is the one whose range it is in.
pub proof fn lemma_line_of(lines: Seq<FlexLine>, len: int, l: int, i: int)
    requires
        lines_tile(lines, len),
        0 <= l < lines.len(),
        lines[l].start <= i < lines[l].end,
    ensures
        line_of(lines, i) == l,
{
    lemma_line_of_from(lines, len, l, i, lines.len() - 1);
}

proof fn lemma_line_starts_ascend(lines: Seq<FlexLine>, len: int, l: int, m: int)
    requires
        lines_tile(lines, len),
        0 <= l < m < lines.len(),
    ensures
        lines[l].end <= lines[m].start,
    decreases m - l,
{
    if m > l + 1 {
        lemma_line_starts_ascend(lines, len, l, m - 1);
        assert(follows(lines, m));
        assert(lines[m - 1].start < lines[m - 1].end);
    } else {
        assert(follows(lines, m));
    }
}

proof fn lemma_line_of_from(lines: Seq<FlexLine>, len: int, l: int, i: int, from: int)
    requires
        lines_tile(lines, len),
        0 <= l <= from < lines.len(),
        lines[l].start <= i < lines[l].end,
    ensures
        line_of_from(lines, i, from) == l,
    decreases from - l,
{
    if from > l {
        lemma_line_starts_ascend(lines, len, l, from);
        lemma_line_of_from(lines, len, l, i, from - 1);
    }
}

fn largest_base_cross(items: &Vec<FlexItem>, line: FlexLine) -> (largest: i64)
    requires
        line.start <= line.end <= items.len(),
    ensures
        largest == max_base_cross(items@, line.start as int, line.end as int),
        0 <= largest <= u32::MAX,
{
    let mut largest: i64 = 0;
    let mut i: usize = line.start;
    while i < line.end
        invariant
            line.start <= i <= line.end <= items.len(),
            largest == max_base_cross(items@, line.start as int, i as int),
            0 <= largest <= u32::MAX,
        decreases line.end - i,
    {
        let cross = items[i].base_cross as i64;
        if cross > largest {
            largest = cross;
        }
        i = i + 1;
    }
    largest
}

fn used_main(items: &Vec<FlexItem>, line: FlexLine, main_gap: u32) -> (used: i128)
    requires
        line.start < line.end <= items.len() <= MAX_ITEMS,
    ensures
        used == sum_final_main(items@, line.start as int, line.end as int) + main_gap * (line.end
            - line.start - 1),
        -0x100_0000_0000_0000_0000_0000 <= used <= 0x100_0000_0000_0000_0000_0000,
{
    let mut used: i128 = 0;
    let mut i: usize = line.start;
    while i < line.end
        invariant
            line.start <= i <= line.end <= items.len() <= MAX_ITEMS,
            used == sum_final_main(items@, line.start as int, i as int),
            -(i - line.start) * 0x8000_0000_0000_0000 <= used <= (i - line.start)
                * 0x8000_0000_0000_0000,
        decreases line.end - i,
    {
        assert((i + 1 - line.start) * 0x8000_0000_0000_0000 == (i - line.start)
            * 0x8000_0000_0000_0000 + 0x8000_0000_0000_0000) by (nonlinear_arith);
        assert((i - line.start) * 0x8000_0000_0000_0000 <= MAX_ITEMS * 0x8000_0000_0000_0000)
            by (nonlinear_arith)
            requires
                0 <= i - line.start <= MAX_ITEMS,
        ;
        used = used + items[i].final_main as i128;
        i = i + 1;
    }
    assert((i - line.start) * 0x8000_0000_0000_0000 <= MAX_ITEMS * 0x8000_0000_0000_0000)
        by (nonlinear_arith)
        requires
            0 <= i - line.start <= MAX_ITEMS,
    ;
    assert(0 <= main_gap * (line.end - line.start - 1) <= u32::MAX * MAX_ITEMS)
        by (nonlinear_arith)
        requires
            0 <= main_gap <= u32::MAX,
            0 <= line.end - line.start - 1 <= MAX_ITEMS,
    ;
    used + (main_gap as i128) * ((line.end - line.start - 1) as i128)
}

fn item_align(style: &Style, align_items: AlignItems) -> (align: AlignItems)
    ensures
        align == effective_align(*style, align_items),
{
    match style.align_self {
        None => align_items,
        Some(AlignSelf::Auto) => align_items,
        Some(AlignSelf::FlexStart) => AlignItems::FlexStart,
        Some(AlignSelf::FlexEnd) => AlignItems::FlexEnd,
        Some(AlignSelf::Center) => AlignItems::Center,
        Some(AlignSelf::Baseline) => AlignItems::Baseline,
        Some(AlignSelf::Stretch) => AlignItems::Stretch,
    }
}

fn shift_within_line(align: AlignItems, line_cross: i64, item_cross: i64) -> (shift: i128)
    ensures
        shift == cross_shift(align, line_cross as int, item_cross as int),
        -0x1_0000_0000_0000_0000 <= shift <= 0x1_0000_0000_0000_0000,
{
    let slack: i128 = line_cross as i128 - item_cross as i128;
    match align {
        AlignItems::FlexStart | AlignItems::Baseline | AlignItems::Stretch => 0,
        AlignItems::FlexEnd => slack,
        AlignItems::Center => slack / 2,
    }
}

fn rect_on_axes(c: &FlexContainer, main_pos: i128, cross_pos: i128, main_size: i64, cross_size: i64) -> (r:
    Rect)
    requires
        -0x1000_0000_0000_0000_0000_0000_0000 <= main_pos <= 0x1000_0000_0000_0000_0000_0000_0000,
        -0x1000_0000_0000_0000_0000_0000_0000 <= cross_pos
            <= 0x1000_0000_0000_0000_0000_0000_0000,
    ensures
        r == axis_rect(*c, main_pos as int, cross_pos as int, main_size as int, cross_size as int),
{
    let main = saturate_i128(match c.direction {
        FlexDirection::Row | FlexDirection::RowReverse => c.x as i128,
        FlexDirection::Column | FlexDirection::ColumnReverse => c.y as i128,
    } + main_pos);
    let cross = saturate_i128(match c.direction {
        FlexDirection::Row | FlexDirection::RowReverse => c.y as i128,
        FlexDirection::Column | FlexDirection::ColumnReverse => c.x as i128,
    } + cross_pos);
    match c.direction {
        FlexDirection::Row | FlexDirection::RowReverse => Rect {
            x: main,
            y: cross,
            width: main_size,
            height: cross_size,
        },
        FlexDirection::Column | FlexDirection::ColumnReverse => Rect {
            x: cross,
            y: main,
            width: cross_size,
            height: main_size,
        },
    }
}

/// Lays out one line: flexes its items, sizes and aligns them across the
/// line, places them along the main axis, and appends their rectangles.
/// Returns the cross size of the line.
pub fn layout_line(
    items: &mut Vec<FlexItem>,
    c: &FlexContainer,
    line: FlexLine,
    line_count: usize,
    cross_offset: i128,
    rects: &mut Vec<Rect>,
) -> (line_cross: i64)
    requires
        line.start < line.end <= old(items).len() <= MAX_ITEMS,
        -0x100_0000_0000_0000_0000_0000 <= cross_offset <= 0x100_0000_0000_0000_0000_0000,
    ensures
        line_cross == line_cross_size(
            old(items)@,
            *c,
            line_count as int,
            line.start as int,
            line.end as int,
        ),
        final(rects)@ == old(rects)@ + Seq::new(
            (line.end - line.start) as nat,
            |j: int|
                item_rect(
                    old(items)@,
                    *c,
                    line_count as int,
                    line.start as int,
                    line.end as int,
                    cross_offset as int,
                    line.start + j,
                ),
        ),
        final(items)@.len() == old(items)@.len(),
        forall|i: int|
            0 <= i < old(items)@.len() && !(line.start <= i < line.end) ==> #[trigger] final(items)@[i]
                == old(items)@[i],
        forall|i: int|
            line.start <= i < line.end ==> #[trigger] final(items)@[i] == (FlexItem {
                final_main: main_extent(
                    item_rect(
                        old(items)@,
                        *c,
                        line_count as int,
                        line.start as int,
                        line.end as int,
                        cross_offset as int,
                        i,
                    ),
                    c.direction,
                ),
                final_cross: cross_extent(
                    item_rect(
                        old(items)@,
                        *c,
                        line_count as int,
                        line.start as int,
                        line.end as int,
                        cross_offset as int,
                        i,
                    ),
                    c.direction,
                ),
                ..old(items)@[i]
            }),
{
    let ghost before = items@;
    let ghost placed = rects@;
    let ghost gap = c.main_gap as int;
    let ghost avail = c.available_main as int;
    let ghost s = line.start as int;
    let ghost e = line.end as int;
    let ghost count = line_count as int;
    let ghost offset = cross_offset as int;
    resolve_flexible_lengths(items, line, c.available_main, c.main_gap);
    let ghost flexed = items@;
    let line_cross = if line_count == 1 && c.cross_definite {
        c.available_cross
    } else {
        proof {
            lemma_max_base_cross_flexed(before, flexed, s, e);
        }
        largest_base_cross(items, line)
    };
    assert(line_cross == line_cross_size(before, *c, count, s, e));
    let used = used_main(items, line, c.main_gap);
    proof {
        lemma_sum_final_is_resolved(before, flexed, gap, avail, s, e, e);
    }
    assert(used == resolved_extent(before, gap, avail, s, e));
    let slack: i128 = c.available_main as i128 - used;
    let leftover = saturate_i128(if slack > 0 {
        slack
    } else {
        0
    });
    assert(leftover == line_leftover(before, *c, s, e));
    let (start_offset, between_gap) = justify_offsets(
        &c.justify_content,
        &c.direction,
        leftover,
        c.main_gap as i64,
        line.end - line.start,
    );
    assert((start_offset as int, between_gap as int) == line_offsets(before, *c, s, e));
    let mut cursor: i128 = start_offset as i128;
    let mut i: usize = line.start;
    while i < line.end
        invariant
            line.start <= i <= line.end <= items.len() <= MAX_ITEMS,
            line.start < line.end,
            items@.len() == before.len(),
            flexed.len() == before.len(),
            s == line.start,
            e == line.end,
            gap == c.main_gap,
            avail == c.available_main,
            count == line_count,
            offset == cross_offset,
            -0x100_0000_0000_0000_0000_0000 <= cross_offset <= 0x100_0000_0000_0000_0000_0000,
            line_cross == line_cross_size(before, *c, count, s, e),
            (start_offset as int, between_gap as int) == line_offsets(before, *c, s, e),
            forall|k: int|
                s <= k < e ==> (#[trigger] flexed[k]) == (FlexItem {
                    final_main: resolved_main(before, gap, avail, s, e, k) as i64,
                    ..before[k]
                }),
            cursor == start_offset + sum_resolved_main(before, gap, avail, s, e, i as int) + (i - s)
                * between_gap,
            rects@.len() == placed.len() + (i - s),
            forall|k: int| 0 <= k < placed.len() ==> rects@[k] == placed[k],
            forall|k: int|
                s <= k < i ==> #[trigger] rects@[placed.len() + (k - s)] == item_rect(
                    before,
                    *c,
                    count,
                    s,
                    e,
                    offset,
                    k,
                ),
            forall|k: int|
                0 <= k < before.len() && !(s <= k < e) ==> #[trigger] items@[k] == before[k],
            forall|k: int| i <= k < e ==> #[trigger] items@[k] == flexed[k],
            forall|k: int|
                s <= k < i ==> #[trigger] items@[k] == (FlexItem {
                    final_main: main_extent(item_rect(before, *c, count, s, e, offset, k), c.direction),
                    final_cross: cross_extent(
                        item_rect(before, *c, count, s, e, offset, k),
                        c.direction,
                    ),
                    ..before[k]
                }),
        decreases line.end - i,
    {
        proof {
            lemma_sum_final_is_resolved(before, flexed, gap, avail, s, e, i as int);
            lemma_sum_final_is_resolved(before, flexed, gap, avail, s, e, i + 1);
            assert((i - s) * 0x8000_0000_0000_0000 <= MAX_ITEMS * 0x8000_0000_0000_0000)
                by (nonlinear_arith)
                requires
                    0 <= i - s <= MAX_ITEMS,
            ;
            assert(-(MAX_ITEMS * 0x8000_0000_0000_0000) <= (i - s) * between_gap <= MAX_ITEMS
                * 0x8000_0000_0000_0000) by (nonlinear_arith)
                requires
                    0 <= i - s <= MAX_ITEMS,
                    -0x8000_0000_0000_0000 <= between_gap <= 0x8000_0000_0000_0000,
            ;
            assert((i + 1 - s) * between_gap == (i - s) * between_gap + between_gap)
                by (nonlinear_arith);
        }
        let item = items[i];
        assert(item == flexed[i as int]);
        let align = item_align(&item.style, c.align_items);
        let cross = if matches!(align, AlignItems::Stretch) && cross_size_is_auto(
            &item.style,
            &c.direction,
        ) {
            line_cross
        } else {
            item.base_cross as i64
        };
        assert(cross == aligned_cross(before[i as int], *c, line_cross as int));
        let cross_pos: i128 = cross_offset + shift_within_line(align, line_cross, cross);
        let rect = rect_on_axes(c, cursor, cross_pos, item.final_main, cross);
        assert(rect == item_rect(before, *c, count, s, e, offset, i as int));
        items[i].final_cross = cross;
        rects.push(rect);
        cursor = cursor + item.final_main as i128 + between_gap as i128;
        i = i + 1;
    }
    proof {
        let appended = Seq::new(
            (line.end - line.start) as nat,
            |j: int| item_rect(before, *c, count, s, e, offset, line.start + j),
        );
        assert forall|j: int| 0 <= j < rects@.len() implies rects@[j] == (placed + appended)[j] by {
            if j >= placed.len() {
                let k = s + (j - placed.len());
                assert(rects@[placed.len() + (k - s)] == item_rect(before, *c, count, s, e, offset, k));
            }
        }
        assert(rects@ =~= placed + appended);
    }
    line_cross
}

/// Base cross sizes are not touched by flexing.
proof fn lemma_max_base_cross_flexed(
    items: Seq<FlexItem>,
    flexed: Seq<FlexItem>,
    start: int,
    end: int,
)
    requires
        0 <= start <= end <= items.len(),
        flexed.len() == items.len(),
        forall|i: int| start <= i < end ==> (#[trigger] flexed[i]).base_cross == items[i].base_cross,
    ensures
        max_base_cross(flexed, start, end) == max_base_cross(items, start, end),
    decreases end - start,
{
    if end > start {
        lemma_max_base_cross_flexed(items, flexed, start, end - 1);
    }
}

/// Line `l` of a tiling ends after at least `l + 1` items, so a tiling has
/// no more lines than there are items.
pub proof fn lemma_line_count(lines: Seq<FlexLine>, len: int, l: int)
    requires
        lines_tile(lines, len),
        0 <= l < lines.len(),
    ensures
        l + 1 <= lines[l].end,
        lines.len() <= len,
    decreases lines.len() - l,
{
    lemma_line_reaches(lines, len, l);
    if l + 1 < lines.len() {
        lemma_line_count(lines, len, l + 1);
    }
}

proof fn lemma_line_reaches(lines: Seq<FlexLine>, len: int, l: int)
    requires
        lines_tile(lines, len),
        0 <= l < lines.len(),
    ensures
        l + 1 <= lines[l].end,
    decreases l,
{
    if l > 0 {
        lemma_line_reaches(lines, len, l - 1);
        assert(follows(lines, l));
    }
    assert(lines[l].start < lines[l].end);
}

/// Lays out the items of a flex container: breaks them into lines, flexes
/// and aligns each line, and returns the rectangle of each item, in item
/// order. Each item is left with the final sizes of its rectangle.
pub fn layout_items(items: &mut Vec<FlexItem>, c: &FlexContainer) -> (rects: Vec<Rect>)
    requires
        old(items).len() <= MAX_ITEMS,
    ensures
        rects@ == flex_rects(old(items)@, *c),
        final(items)@ == sized_items(old(items)@, *c),
{
    let ghost before = items@;
    let ghost n = before.len() as int;
    let lines = break_lines(items, c.available_main, c.wrap, c.main_gap);
    let mut rects: Vec<Rect> = Vec::new();
    let mut cross_offset: i128 = 0;
    let mut l: usize = 0;
    while l < lines.len()
        invariant
            n == before.len() <= MAX_ITEMS,
            items@.len() == n,
            lines@ == flex_lines(before, c.main_gap as int, c.available_main as int, c.wrap),
            lines_tile(lines@, n),
            l <= lines.len(),
            rects@.len() == (if l == 0 {
                0
            } else {
                lines@[l - 1].end as int
            }),
            forall|k: int| 0 <= k < rects@.len() ==> #[trigger] rects@[k] == flex_rect(before, *c, k),
            forall|k: int|
                0 <= k < rects@.len() ==> #[trigger] items@[k] == sized_items(before, *c)[k],
            forall|k: int| rects@.len() <= k < n ==> #[trigger] items@[k] == before[k],
            cross_offset == cross_offset_of(before, *c, lines@, l as int),
            -l * 0x1_0000_0000_0000_0000 <= cross_offset <= l * 0x1_0000_0000_0000_0000,
        decreases lines.len() - l,
    {
        let line = lines[l];
        let ghost placed = rects@;
        let ghost current = items@;
        proof {
            lemma_line_count(lines@, n, l as int);
            if l > 0 {
                assert(follows(lines@, l as int));
            }
            assert(agree_on(current, before, line.start as int, line.end as int));
            assert(l * 0x1_0000_0000_0000_0000 <= MAX_ITEMS * 0x1_0000_0000_0000_0000)
                by (nonlinear_arith)
                requires
                    0 <= l <= MAX_ITEMS,
            ;
            assert((l + 1) * 0x1_0000_0000_0000_0000 == l * 0x1_0000_0000_0000_0000
                + 0x1_0000_0000_0000_0000) by (nonlinear_arith);
        }
        let line_cross = layout_line(items, c, line, lines.len(), cross_offset, &mut rects);
        proof {
            lemma_sums_agree(current, before, line.start as int, line.end as int);
            assert forall|k: int| 0 <= k < rects@.len() implies #[trigger] rects@[k] == flex_rect(
                before,
                *c,
                k,
            ) by {
                if k >= placed.len() {
                    lemma_line_of(lines@, n, l as int, k);
                    lemma_item_rect_agrees(
                        current,
                        before,
                        *c,
                        lines@.len() as int,
                        line.start as int,
                        line.end as int,
                        cross_offset as int,
                        k,
                    );
                }
            }
            assert forall|k: int| 0 <= k < rects@.len() implies #[trigger] items@[k] == sized_items(
                before,
                *c,
            )[k] by {
                if k >= placed.len() {
                    lemma_line_of(lines@, n, l as int, k);
                    lemma_item_rect_agrees(
                        current,
                        before,
                        *c,
                        lines@.len() as int,
                        line.start as int,
                        line.end as int,
                        cross_offset as int,
                        k,
                    );
                } else {
                    assert(items@[k] == current[k]);
                }
            }
        }
        cross_offset = cross_offset + line_cross as i128 + c.cross_gap as i128;
        l = l + 1;
    }
    proof {
        if n > 0 {
            assert(lines@[lines@.len() - 1].end == n);
        }
        assert(rects@ =~= flex_rects(before, *c));
        assert(items@ =~= sized_items(before, *c));
    }
    rects
}

} // verus!
