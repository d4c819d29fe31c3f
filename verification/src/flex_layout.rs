//! The flex container: what space it offers, and how leftover space is
//! spread along the main axis.

use vstd::prelude::*;
use crate::geometry::{div_toward_zero, max_int, saturate, saturate_i128};
use crate::layout::{flex_children_spec, layout_flex_container, padded, LayoutContext};
use crate::style::{FlexDirection, JustifyContent, Length, Style};

verus! {

/// One of the two logical axes of a flex container. The direction maps the
/// main axis to x and width (rows) or to y and height (columns); a reversed
/// direction changes what start and end mean, not this mapping.
#[derive(Clone, Copy, Debug, PartialEq, Eq, Structural)]
pub enum Axis {
    Main,
    Cross,
}

/// Whether the main axis is horizontal.
pub open spec fn is_row(direction: FlexDirection) -> bool {
    direction is Row || direction is RowReverse
}

/// Whether start and end are swapped along the main axis.
pub open spec fn is_reverse(direction: FlexDirection) -> bool {
    direction is RowReverse || direction is ColumnReverse
}

/// Whether `axis` is the horizontal one under `direction`.
pub open spec fn is_horizontal(direction: FlexDirection, axis: Axis) -> bool {
    is_row(direction) == (axis is Main)
}

/// The style dimension that sizes a box along `axis`: `width` for the
/// horizontal axis, `height` for the vertical one.
pub open spec fn axis_dimension(style: Style, direction: FlexDirection, axis: Axis) -> Option<
    Length,
> {
    if is_horizontal(direction, axis) {
        style.width
    } else {
        style.height
    }
}

/// A container's content box is definite along an axis unless its style
/// dimension for that axis is explicitly `auto`.
pub open spec fn is_definite(style: Style, direction: FlexDirection, axis: Axis) -> bool {
    axis_dimension(style, direction, axis) != Some(Length::Auto)
}

/// The padding on both sides of the box along `axis`; 0 if no padding is set.
pub open spec fn axis_padding_sum(style: Style, direction: FlexDirection, axis: Axis) -> int {
    match style.padding {
        None => 0,
        Some(p) => if is_horizontal(direction, axis) {
            p.left.px() + p.right.px()
        } else {
            p.top.px() + p.bottom.px()
        },
    }
}

/// The border on both sides of the box: twice the uniform border width.
pub open spec fn axis_border_sum(style: Style) -> int {
    match style.border_width {
        None => 0,
        Some(w) => 2 * w.px(),
    }
}

/// The space a container offers along an axis: its extent if that axis is
/// definite, else its extent less padding and border, and at least 0.
pub open spec fn available_space(
    container_axis_size: int,
    style: Style,
    direction: FlexDirection,
    axis: Axis,
) -> int {
    if is_definite(style, direction, axis) {
        container_axis_size
    } else {
        max_int(
            container_axis_size - axis_padding_sum(style, direction, axis) - axis_border_sum(style),
            0,
        )
    }
}

/// The gap between rows and the gap between columns: `gap` for both where
/// it is set, else `row-gap` and `column-gap`, each 0 where unset.
pub open spec fn gaps(style: Style) -> (int, int) {
    match style.gap {
        Some(g) => (g.px(), g.px()),
        None => (
            match style.row_gap {
                Some(g) => g.px(),
                None => 0,
            },
            match style.column_gap {
                Some(g) => g.px(),
                None => 0,
            },
        ),
    }
}

/// An item's cross size is automatic when its style leaves the cross
/// dimension unset.
pub open spec fn cross_is_auto(style: Style, direction: FlexDirection) -> bool {
    axis_dimension(style, direction, Axis::Cross) is None
}

/// `justify-content` as it applies under `direction`: a reversed direction
/// swaps `flex-start` and `flex-end`.
pub open spec fn effective_justify(
    justify: JustifyContent,
    direction: FlexDirection,
) -> JustifyContent {
    if is_reverse(direction) {
        match justify {
            JustifyContent::FlexStart => JustifyContent::FlexEnd,
            JustifyContent::FlexEnd => JustifyContent::FlexStart,
            other => other,
        }
    } else {
        justify
    }
}

/// Where the first item of a line starts and how far apart items stand,
/// given the space left over on the line.
pub open spec fn justify(
    justify: JustifyContent,
    direction: FlexDirection,
    leftover: int,
    base_gap: int,
    item_count: int,
) -> (int, int) {
    if item_count <= 0 {
        (0, base_gap)
    } else {
        match effective_justify(justify, direction) {
            JustifyContent::FlexStart => (0, base_gap),
            JustifyContent::FlexEnd => (leftover, base_gap),
            JustifyContent::Center => (div_toward_zero(leftover, 2), base_gap),
            JustifyContent::SpaceBetween => if item_count <= 1 {
                (0, base_gap)
            } else {
                (0, saturate(base_gap + div_toward_zero(leftover, item_count - 1)))
            },
            JustifyContent::SpaceAround => (
                div_toward_zero(div_toward_zero(leftover, item_count), 2),
                saturate(base_gap + div_toward_zero(leftover, item_count)),
            ),
            JustifyContent::SpaceEvenly => (
                div_toward_zero(leftover, item_count + 1),
                saturate(base_gap + div_toward_zero(leftover, item_count + 1)),
            ),
        }
    }
}

/// With at most one item, `space-between` places as `flex-start` does in a
/// direction that is not reversed: the item starts at offset 0 and the gap
/// stays as it is, however much space is left over.
pub proof fn lemma_space_between_single(
    direction: FlexDirection,
    leftover: i64,
    base_gap: i64,
    item_count: usize,
)
    requires
        item_count <= 1,
    ensures
        justify(
            JustifyContent::SpaceBetween,
            direction,
            leftover as int,
            base_gap as int,
            item_count as int,
        ) == (0int, base_gap as int),
        justify(
            JustifyContent::SpaceBetween,
            direction,
            leftover as int,
            base_gap as int,
            item_count as int,
        ) == justify(
            JustifyContent::FlexStart,
            FlexDirection::Row,
            leftover as int,
            base_gap as int,
            item_count as int,
        ),
{
}

fn direction_is_row(direction: &FlexDirection) -> (b: bool)
    ensures
        b == is_row(*direction),
{
    match direction {
        FlexDirection::Row | FlexDirection::RowReverse => true,
        FlexDirection::Column | FlexDirection::ColumnReverse => false,
    }
}

fn axis_is_horizontal(direction: &FlexDirection, axis: Axis) -> (b: bool)
    ensures
        b == is_horizontal(*direction, axis),
{
    let row = direction_is_row(direction);
    match axis {
        Axis::Main => row,
        Axis::Cross => !row,
    }
}

/// Whether the container's content box has a definite size along `axis`.
pub fn is_definite_container_content_box_size(
    style: &Style,
    direction: &FlexDirection,
    axis: Axis,
) -> (definite: bool)
    ensures
        definite == is_definite(*style, *direction, axis),
{
    let dimension = if axis_is_horizontal(direction, axis) {
        style.width
    } else {
        style.height
    };
    match dimension {
        Some(Length::Auto) => false,
        _ => true,
    }
}

/// The padding on both sides of the box along `axis`.
pub fn axis_padding_sum_px(style: &Style, direction: &FlexDirection, axis: Axis) -> (sum: i64)
    ensures
        sum == axis_padding_sum(*style, *direction, axis),
{
    match style.padding {
        None => 0,
        Some(p) => {
            if axis_is_horizontal(direction, axis) {
                p.left.to_px() as i64 + p.right.to_px() as i64
            } else {
                p.top.to_px() as i64 + p.bottom.to_px() as i64
            }
        },
    }
}

/// The border on both sides of the box. The border width is uniform, so
/// neither the direction nor the axis changes the sum.
pub fn axis_border_sum_px(style: &Style, _direction: &FlexDirection, _axis: Axis) -> (sum: i64)
    ensures
        sum == axis_border_sum(*style),
{
    match style.border_width {
        None => 0,
        Some(w) => 2 * (w.to_px() as i64),
    }
}

/// The space that a container of the given extent offers along `axis`.
pub fn determine_available_space(
    container_axis_size: i64,
    style: &Style,
    direction: &FlexDirection,
    axis: Axis,
) -> (space: i64)
    ensures
        space == available_space(container_axis_size as int, *style, *direction, axis),
{
    if is_definite_container_content_box_size(style, direction, axis) {
        return container_axis_size;
    }
    let padding = axis_padding_sum_px(style, direction, axis);
    let border = axis_border_sum_px(style, direction, axis);
    let inner: i128 = container_axis_size as i128 - padding as i128 - border as i128;
    if inner > 0 {
        inner as i64
    } else {
        0
    }
}

/// Whether the item's style leaves its cross dimension unset.
pub fn cross_size_is_auto(style: &Style, direction: &FlexDirection) -> (auto: bool)
    ensures
        auto == cross_is_auto(*style, *direction),
{
    if direction_is_row(direction) {
        style.height.is_none()
    } else {
        style.width.is_none()
    }
}

/// The container's gaps: first the one between rows, then the one between
/// columns.
pub fn gaps_px(style: &Style) -> (g: (u32, u32))
    ensures
        (g.0 as int, g.1 as int) == gaps(*style),
{
    match style.gap {
        Some(gap) => {
            let px = gap.to_px();
            (px, px)
        },
        None => {
            let row_gap = match style.row_gap {
                Some(g) => g.to_px(),
                None => 0,
            };
            let column_gap = match style.column_gap {
                Some(g) => g.to_px(),
                None => 0,
            };
            (row_gap, column_gap)
        },
    }
}

fn quotient(a: i64, b: i128) -> (q: i64)
    requires
        b > 0,
    ensures
        q == div_toward_zero(a as int, b as int),
{
    let q: i128 = a as i128 / b;
    assert(i64::MIN <= q <= i64::MAX) by (nonlinear_arith)
        requires
            b > 0,
            i64::MIN <= a <= i64::MAX,
            q == div_toward_zero(a as int, b as int),
    ;
    q as i64
}

/// The start offset of a line's first item and the gap between its items.
pub fn justify_offsets(
    justify: &JustifyContent,
    direction: &FlexDirection,
    leftover: i64,
    base_gap: i64,
    item_count: usize,
) -> (offsets: (i64, i64))
    ensures
        (offsets.0 as int, offsets.1 as int) == self::justify(
            *justify,
            *direction,
            leftover as int,
            base_gap as int,
            item_count as int,
        ),
{
    if item_count == 0 {
        return (0, base_gap);
    }
    let reverse = match direction {
        FlexDirection::RowReverse | FlexDirection::ColumnReverse => true,
        FlexDirection::Row | FlexDirection::Column => false,
    };
    let effective = match justify {
        JustifyContent::FlexStart => if reverse {
            JustifyContent::FlexEnd
        } else {
            JustifyContent::FlexStart
        },
        JustifyContent::FlexEnd => if reverse {
            JustifyContent::FlexStart
        } else {
            JustifyContent::FlexEnd
        },
        JustifyContent::Center => JustifyContent::Center,
        JustifyContent::SpaceBetween => JustifyContent::SpaceBetween,
        JustifyContent::SpaceAround => JustifyContent::SpaceAround,
        JustifyContent::SpaceEvenly => JustifyContent::SpaceEvenly,
    };
    let count: i128 = item_count as i128;
    match effective {
        JustifyContent::FlexStart => (0, base_gap),
        JustifyContent::FlexEnd => (leftover, base_gap),
        JustifyContent::Center => (quotient(leftover, 2), base_gap),
        JustifyContent::SpaceBetween => {
            if item_count <= 1 {
                (0, base_gap)
            } else {
                let extra = quotient(leftover, count - 1);
                (0, saturate_i128(base_gap as i128 + extra as i128))
            }
        },
        JustifyContent::SpaceAround => {
            let extra = quotient(leftover, count);
            (quotient(extra, 2), saturate_i128(base_gap as i128 + extra as i128))
        },
        JustifyContent::SpaceEvenly => {
            let extra = quotient(leftover, count + 1);
            (extra, saturate_i128(base_gap as i128 + extra as i128))
        },
    }
}

/// The flex layout engine. It holds no state: every call works from the
/// context it is given, so a call may run within another.
#[derive(Clone, Copy, Debug, Default)]
pub struct FlexLayoutEngine;

impl FlexLayoutEngine {
    /// A flex layout engine.
    pub fn new() -> (engine: FlexLayoutEngine) {
        FlexLayoutEngine
    }

    /// Lays out the children of the flex container with the given node
    /// index, whose own bounds are in its record.
    ///
    /// The children that take part become flex items in visual order. They
    /// are broken into lines, flexed, aligned and placed; then each item's
    /// record gets its rectangle and its resolved style, and its subtree is
    /// laid out. The document itself is not changed. A container without
    /// participating children leaves every record as it was.
    pub fn layout_flex_children(
        &self,
        container: usize,
        container_style: &Style,
        ctx: &mut LayoutContext,
    )
        requires
            old(ctx).wf(),
            container < old(ctx).document.len(),
        ensures
            final(ctx).document == old(ctx).document,
            final(ctx).style_sheet == old(ctx).style_sheet,
            final(ctx).layouts@ == flex_children_spec(
                old(ctx).document,
                old(ctx).style_sheet.rules@,
                padded(old(ctx).layouts@, old(ctx).document.len()),
                container as int,
                *container_style,
            ),
            final(ctx).layouts@.len() == old(ctx).document.len(),
            forall|m: int|
                0 <= m < old(ctx).layouts@.len() && (m == container || !old(ctx).document.is_ancestor_or_self(container as int, m)) ==> #[trigger] final(ctx).layouts@[m] == old(ctx).layouts@[m],
            forall|m: int|
                0 <= m < old(ctx).layouts@.len() && old(ctx).document.nodes@[container as int].children@.contains(m as usize)
                    && !crate::flex_items::participates(old(ctx).document.nodes@[m])
                    ==> #[trigger] final(ctx).layouts@[m] == old(ctx).layouts@[m],
    {
        ctx.prepare();
        proof {
            crate::layout::lemma_flex_layout_frame(
                ctx.document,
                ctx.style_sheet.rules@,
                ctx.layouts@,
                container as int,
                *container_style,
            );
        }
        layout_flex_container(
            &ctx.document,
            &ctx.style_sheet,
            &mut ctx.layouts,
            container,
            container_style,
        );
    }
}

} // verus!
