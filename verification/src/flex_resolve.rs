//! Flexing: the distribution of a line's free space over its items.
//!
//! Positive free space goes to the items in proportion to their grow
//! factors. Negative free space is taken from them in proportion to their
//! shrink factors scaled by their base sizes. An unset factor is 0, so an
//! item that sets no `flex-shrink` never shrinks. Shares are rounded down
//! to whole units in a single pass; no size is held to a minimum.

use vstd::prelude::*;
use crate::flex_lines::{
    base_extent,
    lemma_base_extent_bounds,
    sum_base_main,
    FlexItem,
    FlexLine,
    MAX_ITEMS,
};
use crate::geometry::{saturate, saturate_i128};

verus! {

/// An item's grow factor; 0 where `flex-grow` is unset.
pub open spec fn grow_factor(item: FlexItem) -> int {
    match item.style.flex_grow {
        Some(g) => g as int,
        None => 0,
    }
}

/// An item's shrink factor; 0 where `flex-shrink` is unset.
pub open spec fn shrink_factor(item: FlexItem) -> int {
    match item.style.flex_shrink {
        Some(s) => s as int,
        None => 0,
    }
}

/// An item's shrink weight: its shrink factor times its base main size.
pub open spec fn shrink_weight(item: FlexItem) -> int {
    shrink_factor(item) * item.base_main
}

/// The sum of the grow factors of the items `start..end`.
pub open spec fn sum_grow(items: Seq<FlexItem>, start: int, end: int) -> int
    decreases end - start,
{
    if end <= start {
        0
    } else {
        sum_grow(items, start, end - 1) + grow_factor(items[end - 1])
    }
}

/// The sum of the shrink weights of the items `start..end`.
pub open spec fn sum_shrink_weight(items: Seq<FlexItem>, start: int, end: int) -> int
    decreases end - start,
{
    if end <= start {
        0
    } else {
        sum_shrink_weight(items, start, end - 1) + shrink_weight(items[end - 1])
    }
}

/// The free space of the line `start..end`: what the available main space
/// exceeds the line's base extent by. Negative when the line overflows.
pub open spec fn free_space(
    items: Seq<FlexItem>,
    gap: int,
    available_main: int,
    start: int,
    end: int,
) -> int {
    available_main - base_extent(items, gap, start, end)
}

/// The exact main size of item `i` after flexing within the line
/// `start..end`.
pub open spec fn flexed_main(
    items: Seq<FlexItem>,
    gap: int,
    available_main: int,
    start: int,
    end: int,
    i: int,
) -> int {
    let free = free_space(items, gap, available_main, start, end);
    let base = items[i].base_main as int;
    if free > 0 {
        let total_grow = sum_grow(items, start, end);
        if total_grow > 0 {
            base + (free * grow_factor(items[i])) / total_grow
        } else {
            base
        }
    } else if free < 0 {
        let total_weight = sum_shrink_weight(items, start, end);
        if total_weight > 0 {
            base - ((-free) * shrink_weight(items[i])) / total_weight
        } else {
            base
        }
    } else {
        base
    }
}

/// The final main size of item `i` of the line `start..end`, as stored.
pub open spec fn resolved_main(
    items: Seq<FlexItem>,
    gap: int,
    available_main: int,
    start: int,
    end: int,
    i: int,
) -> int {
    saturate(flexed_main(items, gap, available_main, start, end, i))
}

/// The sum of the final main sizes of the items `start..upto` of the line
/// `start..end`.
pub open spec fn sum_resolved_main(
    items: Seq<FlexItem>,
    gap: int,
    available_main: int,
    start: int,
    end: int,
    upto: int,
) -> int
    decreases upto - start,
{
    if upto <= start {
        0
    } else {
        sum_resolved_main(items, gap, available_main, start, end, upto - 1) + resolved_main(
            items,
            gap,
            available_main,
            start,
            end,
            upto - 1,
        )
    }
}

/// The main-axis extent of the line `start..end` after flexing, with `gap`
/// between neighbours.
pub open spec fn resolved_extent(
    items: Seq<FlexItem>,
    gap: int,
    available_main: int,
    start: int,
    end: int,
) -> int {
    if end <= start {
        0
    } else {
        sum_resolved_main(items, gap, available_main, start, end, end) + gap * (end - start - 1)
    }
}

/// The items after flexing the line `start..end`: each item of the line
/// has its final main size, and nothing else differs.
pub open spec fn with_resolved_main(
    items: Seq<FlexItem>,
    gap: int,
    available_main: int,
    start: int,
    end: int,
) -> Seq<FlexItem> {
    Seq::new(
        items.len(),
        |i: int|
            if start <= i < end {
                FlexItem {
                    final_main: resolved_main(items, gap, available_main, start, end, i) as i64,
                    ..items[i]
                }
            } else {
                items[i]
            },
    )
}

/// The sum of grow factors is bounded by the count of the items.
pub proof fn lemma_sum_grow_bounds(items: Seq<FlexItem>, start: int, end: int)
    requires
        0 <= start <= end <= items.len(),
    ensures
        0 <= sum_grow(items, start, end) <= (end - start) * u32::MAX,
    decreases end - start,
{
    if end > start {
        lemma_sum_grow_bounds(items, start, end - 1);
        assert((end - start) * u32::MAX == (end - 1 - start) * u32::MAX + u32::MAX)
            by (nonlinear_arith);
    }
}

/// A shrink weight is the product of two 32-bit values.
pub proof fn lemma_shrink_weight_bounds(item: FlexItem)
    ensures
        0 <= shrink_weight(item) <= u32::MAX * u32::MAX,
{
    let s = shrink_factor(item);
    let b = item.base_main as int;
    assert(0 <= s * b <= u32::MAX * u32::MAX) by (nonlinear_arith)
        requires
            0 <= s <= u32::MAX,
            0 <= b <= u32::MAX,
    ;
}

/// The sum of shrink weights is bounded by the count of the items.
pub proof fn lemma_sum_shrink_weight_bounds(items: Seq<FlexItem>, start: int, end: int)
    requires
        0 <= start <= end <= items.len(),
    ensures
        0 <= sum_shrink_weight(items, start, end) <= (end - start) * (u32::MAX * u32::MAX),
    decreases end - start,
{
    if end > start {
        lemma_sum_shrink_weight_bounds(items, start, end - 1);
        lemma_shrink_weight_bounds(items[end - 1]);
        assert((end - start) * (u32::MAX * u32::MAX) == (end - 1 - start) * (u32::MAX * u32::MAX)
            + u32::MAX * u32::MAX) by (nonlinear_arith);
    }
}

/// A part of a sum of non-negative terms is at most the whole.
pub proof fn lemma_sum_grow_part(items: Seq<FlexItem>, start: int, end: int, i: int)
    requires
        0 <= start <= i < end <= items.len(),
    ensures
        grow_factor(items[i]) <= sum_grow(items, start, end),
    decreases end - start,
{
    if i == end - 1 {
        lemma_sum_grow_bounds(items, start, end - 1);
    } else {
        lemma_sum_grow_part(items, start, end - 1, i);
    }
}

/// A part of a sum of non-negative terms is at most the whole.
pub proof fn lemma_sum_shrink_weight_part(items: Seq<FlexItem>, start: int, end: int, i: int)
    requires
        0 <= start <= i < end <= items.len(),
    ensures
        0 <= shrink_weight(items[i]) <= sum_shrink_weight(items, start, end),
    decreases end - start,
{
    lemma_shrink_weight_bounds(items[i]);
    if i == end - 1 {
        lemma_sum_shrink_weight_bounds(items, start, end - 1);
    } else {
        lemma_shrink_weight_bounds(items[end - 1]);
        lemma_sum_shrink_weight_part(items, start, end - 1, i);
    }
}

/// A base size is at most the sum of base sizes it belongs to.
pub proof fn lemma_sum_base_main_part(items: Seq<FlexItem>, start: int, end: int, i: int)
    requires
        0 <= start <= i < end <= items.len(),
    ensures
        items[i].base_main <= sum_base_main(items, start, end),
    decreases end - start,
{
    if i == end - 1 {
        crate::flex_lines::lemma_sum_base_main_bounds(items, start, end - 1);
    } else {
        lemma_sum_base_main_part(items, start, end - 1, i);
    }
}

/// A share of `space` by weight: never negative, never more than `space`,
/// and off from the exact share by less than one unit.
pub proof fn lemma_share_bounds(space: int, weight: int, total: int)
    requires
        space >= 0,
        0 <= weight <= total,
        total > 0,
    ensures
        0 <= (space * weight) / total <= space,
        total * ((space * weight) / total) <= space * weight,
        space * weight - (total - 1) <= total * ((space * weight) / total),
{
    let p = space * weight;
    assert(0 <= p <= space * total) by (nonlinear_arith)
        requires
            p == space * weight,
            space >= 0,
            0 <= weight <= total,
    ;
    let q = p / total;
    assert(p == total * q + p % total && 0 <= p % total < total) by (nonlinear_arith)
        requires
            total > 0,
            q == p / total,
    ;
    assert(0 <= q <= space) by (nonlinear_arith)
        requires
            p == total * q + p % total,
            0 <= p % total < total,
            0 <= p <= space * total,
            total > 0,
    ;
}

/// What flexing makes of an item lies between its base size and the far
/// end of the free space.
pub proof fn lemma_flexed_main_bounds(
    items: Seq<FlexItem>,
    gap: u32,
    available_main: i64,
    start: int,
    end: int,
    i: int,
)
    requires
        0 <= start <= i < end <= items.len(),
    ensures
        ({
            let free = free_space(items, gap as int, available_main as int, start, end);
            let flexed = flexed_main(items, gap as int, available_main as int, start, end, i);
            let base = items[i].base_main as int;
            &&& free >= 0 ==> base <= flexed <= base + free
            &&& free <= 0 ==> base + free <= flexed <= base
            &&& free > 0 ==> 0 <= flexed <= available_main
        }),
{
    let free = free_space(items, gap as int, available_main as int, start, end);
    lemma_sum_grow_part(items, start, end, i);
    lemma_sum_shrink_weight_part(items, start, end, i);
    lemma_sum_base_main_part(items, start, end, i);
    if free > 0 {
        let total = sum_grow(items, start, end);
        if total > 0 {
            lemma_share_bounds(free, grow_factor(items[i]), total);
        }
        assert(gap * (end - start - 1) >= 0) by (nonlinear_arith)
            requires
                gap >= 0,
                end - start - 1 >= 0,
        ;
    } else if free < 0 {
        let total = sum_shrink_weight(items, start, end);
        if total > 0 {
            lemma_share_bounds(-free, shrink_weight(items[i]), total);
        }
    }
}

/// An item that sets no `flex-shrink` never ends up smaller than its base
/// main size, whatever the free space of its line.
pub proof fn lemma_unset_shrink_keeps_base(
    items: Seq<FlexItem>,
    gap: u32,
    available_main: i64,
    start: int,
    end: int,
    i: int,
)
    requires
        0 <= start <= i < end <= items.len(),
        items[i].style.flex_shrink is None,
    ensures
        resolved_main(items, gap as int, available_main as int, start, end, i)
            >= items[i].base_main,
        free_space(items, gap as int, available_main as int, start, end) <= 0 ==> resolved_main(
            items,
            gap as int,
            available_main as int,
            start,
            end,
            i,
        ) == items[i].base_main,
{
    lemma_flexed_main_bounds(items, gap, available_main, start, end, i);
    let free = free_space(items, gap as int, available_main as int, start, end);
    assert(shrink_weight(items[i]) == 0) by (nonlinear_arith)
        requires
            shrink_weight(items[i]) == 0 * items[i].base_main,
    ;
    assert((-free) * 0 == 0);
}

/// Growing conserves space up to rounding: where a line has positive free
/// space and a positive sum of grow factors, its items and gaps together
/// fill the available main space, short of it by less than one unit for
/// each item.
pub proof fn lemma_grow_conserves_space(
    items: Seq<FlexItem>,
    gap: u32,
    available_main: i64,
    start: int,
    end: int,
)
    requires
        0 <= start < end <= items.len(),
        free_space(items, gap as int, available_main as int, start, end) > 0,
        sum_grow(items, start, end) > 0,
    ensures
        available_main - (end - start) < resolved_extent(
            items,
            gap as int,
            available_main as int,
            start,
            end,
        ) <= available_main,
{
    let total = sum_grow(items, start, end);
    let free = free_space(items, gap as int, available_main as int, start, end);
    lemma_grown_prefix(items, gap, available_main, start, end, end);
    let shares = sum_resolved_main(items, gap as int, available_main as int, start, end, end)
        - sum_base_main(items, start, end);
    assert(free - (end - start) < shares <= free) by (nonlinear_arith)
        requires
            total > 0,
            end - start > 0,
            total * shares <= free * total,
            free * total - (end - start) * (total - 1) <= total * shares,
    ;
}

/// The shares handed out to the first items of a growing line, against the
/// exact shares of the free space that are theirs.
proof fn lemma_grown_prefix(
    items: Seq<FlexItem>,
    gap: u32,
    available_main: i64,
    start: int,
    end: int,
    upto: int,
)
    requires
        0 <= start <= upto <= end <= items.len(),
        start < end,
        free_space(items, gap as int, available_main as int, start, end) > 0,
        sum_grow(items, start, end) > 0,
    ensures
        ({
            let total = sum_grow(items, start, end);
            let free = free_space(items, gap as int, available_main as int, start, end);
            let shares = sum_resolved_main(
                items,
                gap as int,
                available_main as int,
                start,
                end,
                upto,
            ) - sum_base_main(items, start, upto);
            &&& total * shares <= free * sum_grow(items, start, upto)
            &&& free * sum_grow(items, start, upto) - (upto - start) * (total - 1) <= total
                * shares
        }),
    decreases upto - start,
{
    let total = sum_grow(items, start, end);
    let free = free_space(items, gap as int, available_main as int, start, end);
    if upto > start {
        lemma_grown_prefix(items, gap, available_main, start, end, upto - 1);
        let i = upto - 1;
        let g = grow_factor(items[i]);
        lemma_sum_grow_part(items, start, end, i);
        lemma_share_bounds(free, g, total);
        lemma_flexed_main_bounds(items, gap, available_main, start, end, i);
        let q = (free * g) / total;
        let before = sum_resolved_main(items, gap as int, available_main as int, start, end, i)
            - sum_base_main(items, start, i);
        let after = sum_resolved_main(items, gap as int, available_main as int, start, end, upto)
            - sum_base_main(items, start, upto);
        assert(after == before + q);
        let gb = sum_grow(items, start, i);
        assert(sum_grow(items, start, upto) == gb + g);
        assert(total * after <= free * (gb + g) && free * (gb + g) - (upto - start) * (total - 1)
            <= total * after) by (nonlinear_arith)
            requires
                after == before + q,
                total * before <= free * gb,
                free * gb - (i - start) * (total - 1) <= total * before,
                total * q <= free * g,
                free * g - (total - 1) <= total * q,
                upto == i + 1,
        ;
    } else {
        assert(free * 0 == 0);
        assert(total * 0 == 0);
    }
}

/// Flexes one line: sets the final main size of each of its items.
pub fn resolve_flexible_lengths(
    items: &mut Vec<FlexItem>,
    line: FlexLine,
    available_main: i64,
    main_gap: u32,
)
    requires
        line.start <= line.end <= old(items).len() <= MAX_ITEMS,
    ensures
        final(items)@ == with_resolved_main(
            old(items)@,
            main_gap as int,
            available_main as int,
            line.start as int,
            line.end as int,
        ),
        forall|i: int|
            line.start <= i < line.end && old(items)@[i].style.flex_shrink is None ==> (
            #[trigger] final(items)@[i]).final_main >= old(items)@[i].base_main,
        free_space(
            old(items)@,
            main_gap as int,
            available_main as int,
            line.start as int,
            line.end as int,
        ) > 0 && sum_grow(old(items)@, line.start as int, line.end as int) > 0 ==> available_main
            - (line.end - line.start) < resolved_extent(
            old(items)@,
            main_gap as int,
            available_main as int,
            line.start as int,
            line.end as int,
        ) <= available_main,
{
    let ghost before = items@;
    let ghost gap = main_gap as int;
    let ghost avail = available_main as int;
    let ghost s = line.start as int;
    let ghost e = line.end as int;
    let mut total_base: i64 = 0;
    let mut total_grow: u64 = 0;
    let mut total_weight: u128 = 0;
    let mut i: usize = line.start;
    while i < line.end
        invariant
            line.start <= i <= line.end <= items.len() <= MAX_ITEMS,
            items@ == before,
            s == line.start,
            total_base == sum_base_main(before, s, i as int),
            total_grow == sum_grow(before, s, i as int),
            total_weight == sum_shrink_weight(before, s, i as int),
        decreases line.end - i,
    {
        proof {
            crate::flex_lines::lemma_sum_base_main_bounds(before, s, i as int);
            lemma_sum_grow_bounds(before, s, i as int);
            lemma_sum_shrink_weight_bounds(before, s, i as int);
            lemma_shrink_weight_bounds(before[i as int]);
            assert((i - s) * u32::MAX <= MAX_ITEMS * u32::MAX) by (nonlinear_arith)
                requires
                    0 <= i - s <= MAX_ITEMS,
            ;
            assert((i - s) * (u32::MAX * u32::MAX) <= MAX_ITEMS * (u32::MAX * u32::MAX))
                by (nonlinear_arith)
                requires
                    0 <= i - s <= MAX_ITEMS,
            ;
        }
        total_base = total_base + items[i].base_main as i64;
        total_grow = total_grow + match items[i].style.flex_grow {
            Some(g) => g as u64,
            None => 0,
        };
        let shrink: u128 = match items[i].style.flex_shrink {
            Some(f) => f as u128,
            None => 0,
        };
        assert(shrink * (items[i as int].base_main as u128) == shrink_weight(before[i as int]));
        total_weight = total_weight + shrink * (items[i].base_main as u128);
        i = i + 1;
    }
    if line.start < line.end {
        proof {
            crate::flex_lines::lemma_sum_base_main_bounds(before, s, e);
            assert((e - s) * u32::MAX <= MAX_ITEMS * u32::MAX) by (nonlinear_arith)
                requires
                    0 <= e - s <= MAX_ITEMS,
            ;
            assert(0 <= gap * (e - s - 1) <= u32::MAX * MAX_ITEMS) by (nonlinear_arith)
                requires
                    0 <= gap <= u32::MAX,
                    0 <= e - s - 1 <= MAX_ITEMS,
            ;
        }
        total_base = total_base + (main_gap as i64) * ((line.end - line.start - 1) as i64);
    }
    assert(total_base == base_extent(before, gap, s, e));
    proof {
        lemma_base_extent_bounds(before, gap, s, e);
        assert(2 * (e - s) * u32::MAX <= 2 * MAX_ITEMS * u32::MAX) by (nonlinear_arith)
            requires
                0 <= e - s <= MAX_ITEMS,
        ;
    }
    let free: i128 = available_main as i128 - total_base as i128;
    assert(free == free_space(before, gap, avail, s, e));
    let grows = free > 0 && total_grow > 0;
    let shrinks = free < 0 && total_weight > 0;
    let mut i: usize = line.start;
    while i < line.end
        invariant
            line.start <= i <= line.end <= items.len() <= MAX_ITEMS,
            items@.len() == before.len(),
            s == line.start,
            e == line.end,
            gap == main_gap,
            avail == available_main,
            free == free_space(before, gap, avail, s, e),
            total_grow == sum_grow(before, s, e),
            total_weight == sum_shrink_weight(before, s, e),
            grows == (free > 0 && total_grow > 0),
            shrinks == (free < 0 && total_weight > 0),
            -0x8200_0000_0000_0000 <= free <= i64::MAX,
            forall|k: int|
                s <= k < i ==> #[trigger] items@[k] == (FlexItem {
                    final_main: resolved_main(before, gap, avail, s, e, k) as i64,
                    ..before[k]
                }),
            forall|k: int| 0 <= k < before.len() && !(s <= k < i) ==> #[trigger] items@[k] == before[k],
        decreases line.end - i,
    {
        let base: i128 = items[i].base_main as i128;
        proof {
            lemma_flexed_main_bounds(before, main_gap, available_main, s, e, i as int);
            lemma_sum_grow_part(before, s, e, i as int);
            lemma_sum_shrink_weight_part(before, s, e, i as int);
            lemma_shrink_weight_bounds(before[i as int]);
        }
        let flexed: i128 = if grows {
            let grow: i128 = match items[i].style.flex_grow {
                Some(g) => g as i128,
                None => 0,
            };
            assert(0 <= free * grow <= i64::MAX * u32::MAX) by (nonlinear_arith)
                requires
                    0 <= free <= i64::MAX,
                    0 <= grow <= u32::MAX,
            ;
            base + (free * grow) / (total_grow as i128)
        } else if shrinks {
            let needed: u128 = (-free) as u128;
            let shrink: u128 = match items[i].style.flex_shrink {
                Some(f) => f as u128,
                None => 0,
            };
            let weight: u128 = shrink * (items[i].base_main as u128);
            assert(weight == shrink_weight(before[i as int]));
            assert(0 <= needed * weight <= 0x8200_0000_0000_0000 * (u32::MAX * u32::MAX))
                by (nonlinear_arith)
                requires
                    0 <= needed <= 0x8200_0000_0000_0000,
                    0 <= weight <= u32::MAX * u32::MAX,
            ;
            proof {
                lemma_share_bounds(needed as int, weight as int, total_weight as int);
            }
            let reduction: u128 = (needed * weight) / total_weight;
            base - reduction as i128
        } else {
            base
        };
        assert(flexed == flexed_main(before, gap, avail, s, e, i as int));
        items[i].final_main = saturate_i128(flexed);
        i = i + 1;
    }
    proof {
        assert(items@ =~= with_resolved_main(before, gap, avail, s, e));
        assert forall|k: int|
            line.start <= k < line.end && before[k].style.flex_shrink is None implies (
        #[trigger] items@[k]).final_main >= before[k].base_main by {
            lemma_unset_shrink_keeps_base(before, main_gap, available_main, s, e, k);
        }
        if free > 0 && total_grow > 0 {
            lemma_grow_conserves_space(before, main_gap, available_main, s, e);
        }
    }
}

} // verus!
