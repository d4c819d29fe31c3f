//! Flex items and the breaking of an item list into flex lines.

use vstd::prelude::*;
use crate::style::{FlexWrap, Style};

verus! {

/// The most items one flex container lays out. The bound keeps every sum
/// over a line within the range of the machine arithmetic.
pub const MAX_ITEMS: usize = 0x100_0000;

/// A participating child of a flex container: the node it stands for, its
/// resolved style, its sizes before flexing and its sizes after.
#[derive(Clone, Copy, Debug, PartialEq, Eq, Structural)]
pub struct FlexItem {
    pub node: usize,
    pub style: Style,
    pub base_main: u32,
    pub base_cross: u32,
    pub final_main: i64,
    pub final_cross: i64,
}

impl FlexItem {
    /// A fresh item: its final sizes start out as its base sizes.
    pub open spec fn fresh(node: usize, style: Style, base_main: u32, base_cross: u32) -> FlexItem {
        FlexItem {
            node,
            style,
            base_main,
            base_cross,
            final_main: base_main as i64,
            final_cross: base_cross as i64,
        }
    }

    /// A fresh item: its final sizes start out as its base sizes.
    pub fn new(node: usize, style: Style, base_main: u32, base_cross: u32) -> (item: FlexItem)
        ensures
            item == FlexItem::fresh(node, style, base_main, base_cross),
    {
        FlexItem {
            node,
            style,
            base_main,
            base_cross,
            final_main: base_main as i64,
            final_cross: base_cross as i64,
        }
    }
}

/// A flex line: the items `start..end` of the item list, in that order.
/// A line of a layout is never empty.
#[derive(Clone, Copy, Debug, PartialEq, Eq, Structural)]
pub struct FlexLine {
    pub start: usize,
    pub end: usize,
}

/// The sum of the base main sizes of the items `start..end`.
pub open spec fn sum_base_main(items: Seq<FlexItem>, start: int, end: int) -> int
    decreases end - start,
{
    if end <= start {
        0
    } else {
        sum_base_main(items, start, end - 1) + items[end - 1].base_main
    }
}

/// The main-axis extent of the items `start..end` set side by side at their
/// base sizes, with `gap` between neighbours.
pub open spec fn base_extent(items: Seq<FlexItem>, gap: int, start: int, end: int) -> int {
    if end <= start {
        0
    } else {
        sum_base_main(items, start, end) + gap * (end - start - 1)
    }
}

/// Whether the wrap mode lets a container break its items into lines.
pub open spec fn can_wrap(wrap: FlexWrap) -> bool {
    wrap is Wrap || wrap is WrapReverse
}

/// The end of the line that starts at `start`, looking at the items from
/// `next` on: the first item that no longer fits ends the line.
pub open spec fn line_end_from(
    items: Seq<FlexItem>,
    gap: int,
    available_main: int,
    start: int,
    next: int,
) -> int
    decreases items.len() - next,
{
    if next >= items.len() {
        items.len() as int
    } else if base_extent(items, gap, start, next + 1) > available_main {
        next
    } else {
        line_end_from(items, gap, available_main, start, next + 1)
    }
}

/// The end of the line that starts at `start`. Without wrapping the line
/// takes all remaining items. With wrapping it takes its first item and
/// then every next one as long as the line, gaps included, stays within
/// the available main space.
pub open spec fn line_end(
    items: Seq<FlexItem>,
    gap: int,
    available_main: int,
    wrap: FlexWrap,
    start: int,
) -> int {
    if can_wrap(wrap) {
        line_end_from(items, gap, available_main, start, start + 1)
    } else {
        items.len() as int
    }
}

/// The lines that the items from `start` on are broken into.
pub open spec fn lines_from(
    items: Seq<FlexItem>,
    gap: int,
    available_main: int,
    wrap: FlexWrap,
    start: int,
) -> Seq<FlexLine>
    decreases items.len() - start,
{
    if 0 <= start < items.len() {
        let end = line_end(items, gap, available_main, wrap, start);
        if start < end <= items.len() {
            seq![FlexLine { start: start as usize, end: end as usize }] + lines_from(
                items,
                gap,
                available_main,
                wrap,
                end,
            )
        } else {
            Seq::empty()
        }
    } else {
        Seq::empty()
    }
}

/// The flex lines of an item list.
pub open spec fn flex_lines(
    items: Seq<FlexItem>,
    gap: int,
    available_main: int,
    wrap: FlexWrap,
) -> Seq<FlexLine> {
    lines_from(items, gap, available_main, wrap, 0)
}

/// Line `l` starts where the line before it ends.
pub open spec fn follows(lines: Seq<FlexLine>, l: int) -> bool {
    lines[l].start == lines[l - 1].end
}

/// The lines tile the item list: the first starts at 0, each is non-empty
/// and starts where the one before it ends, and the last ends at `len`.
pub open spec fn lines_tile(lines: Seq<FlexLine>, len: int) -> bool {
    &&& len == 0 <==> lines.len() == 0
    &&& forall|l: int| 0 <= l < lines.len() ==> (#[trigger] lines[l]).start < lines[l].end <= len
    &&& lines.len() > 0 ==> lines[0].start == 0 && lines[lines.len() - 1].end == len
    &&& forall|l: int| 0 < l < lines.len() ==> #[trigger] follows(lines, l)
}

/// A line is greedy: every item after its first fitted within the available
/// main space when it was added, and the item after its last would not have.
pub open spec fn line_is_greedy(
    items: Seq<FlexItem>,
    gap: int,
    available_main: int,
    line: FlexLine,
) -> bool {
    &&& forall|j: int|
        line.start < j < line.end ==> #[trigger] base_extent(items, gap, line.start as int, j + 1)
            <= available_main
    &&& line.end < items.len() ==> base_extent(items, gap, line.start as int, line.end + 1)
        > available_main
}

/// The sum of base sizes is never negative and grows by at most the
/// largest base size with each item.
pub proof fn lemma_sum_base_main_bounds(items: Seq<FlexItem>, start: int, end: int)
    requires
        0 <= start <= end <= items.len(),
    ensures
        0 <= sum_base_main(items, start, end) <= (end - start) * u32::MAX,
    decreases end - start,
{
    if end > start {
        lemma_sum_base_main_bounds(items, start, end - 1);
        assert((end - start) * u32::MAX == (end - 1 - start) * u32::MAX + u32::MAX)
            by (nonlinear_arith);
    }
}

/// The extent of a range of items is bounded by the count of its items.
pub proof fn lemma_base_extent_bounds(items: Seq<FlexItem>, gap: int, start: int, end: int)
    requires
        0 <= start <= end <= items.len(),
        0 <= gap <= u32::MAX,
    ensures
        0 <= base_extent(items, gap, start, end) <= 2 * (end - start) * u32::MAX,
{
    lemma_sum_base_main_bounds(items, start, end);
    if end > start {
        assert(0 <= gap * (end - start - 1) <= (end - start) * u32::MAX) by (nonlinear_arith)
            requires
                0 <= gap <= u32::MAX,
                end - start - 1 >= 0,
        ;
    }
}

/// The scan for a line's end never goes back and never leaves the list.
pub proof fn lemma_line_end_from_range(
    items: Seq<FlexItem>,
    gap: int,
    available_main: int,
    start: int,
    next: int,
)
    requires
        next <= items.len(),
    ensures
        next <= line_end_from(items, gap, available_main, start, next) <= items.len(),
    decreases items.len() - next,
{
    if next < items.len() && base_extent(items, gap, start, next + 1) <= available_main {
        lemma_line_end_from_range(items, gap, available_main, start, next + 1);
    }
}

/// A line that starts within the list ends behind its start and within
/// the list.
pub proof fn lemma_line_end_range(
    items: Seq<FlexItem>,
    gap: int,
    available_main: int,
    wrap: FlexWrap,
    start: int,
)
    requires
        0 <= start < items.len(),
    ensures
        start < line_end(items, gap, available_main, wrap, start) <= items.len(),
{
    if can_wrap(wrap) {
        lemma_line_end_from_range(items, gap, available_main, start, start + 1);
    }
}

/// The lines from `start` on tile the rest of the list.
pub proof fn lemma_lines_from_tile(
    items: Seq<FlexItem>,
    gap: int,
    available_main: int,
    wrap: FlexWrap,
    start: int,
)
    requires
        0 <= start <= items.len() <= MAX_ITEMS,
    ensures
        ({
            let lines = lines_from(items, gap, available_main, wrap, start);
            &&& start == items.len() <==> lines.len() == 0
            &&& forall|l: int|
                0 <= l < lines.len() ==> start <= (#[trigger] lines[l]).start < lines[l].end
                    <= items.len()
            &&& lines.len() > 0 ==> lines[0].start == start && lines[lines.len() - 1].end
                == items.len()
            &&& forall|l: int| 0 < l < lines.len() ==> #[trigger] follows(lines, l)
        }),
    decreases items.len() - start,
{
    if start < items.len() {
        lemma_line_end_range(items, gap, available_main, wrap, start);
        let end = line_end(items, gap, available_main, wrap, start);
        let line = FlexLine { start: start as usize, end: end as usize };
        let rest = lines_from(items, gap, available_main, wrap, end);
        lemma_lines_from_tile(items, gap, available_main, wrap, end);
        let lines = lines_from(items, gap, available_main, wrap, start);
        assert(lines == seq![line] + rest);
        assert(lines[0] == line);
        assert forall|l: int| 0 < l < lines.len() implies lines[l] == rest[l - 1] by {}
        assert forall|l: int| 0 <= l < lines.len() implies start <= (#[trigger] lines[l]).start
            < lines[l].end <= items.len() by {
            if l > 0 {
                assert(lines[l] == rest[l - 1]);
            }
        }
        assert forall|l: int| 0 < l < lines.len() implies #[trigger] follows(lines, l) by {
            assert(lines[l] == rest[l - 1]);
            if l > 1 {
                assert(lines[l - 1] == rest[l - 2]);
                assert(follows(rest, l - 1));
            }
        }
        if rest.len() > 0 {
            assert(lines[lines.len() - 1] == rest[rest.len() - 1]);
        }
    }
}

/// The flex lines of a list tile it.
pub proof fn lemma_flex_lines_tile(
    items: Seq<FlexItem>,
    gap: int,
    available_main: int,
    wrap: FlexWrap,
)
    requires
        items.len() <= MAX_ITEMS,
    ensures
        lines_tile(flex_lines(items, gap, available_main, wrap), items.len() as int),
{
    lemma_lines_from_tile(items, gap, available_main, wrap, 0);
}

/// Breaks the items into flex lines.
pub fn break_lines(items: &Vec<FlexItem>, available_main: i64, wrap: FlexWrap, main_gap: u32) -> (lines:
    Vec<FlexLine>)
    requires
        items.len() <= MAX_ITEMS,
    ensures
        lines@ == flex_lines(items@, main_gap as int, available_main as int, wrap),
        lines_tile(lines@, items.len() as int),
        !can_wrap(wrap) ==> lines.len() <= 1,
        can_wrap(wrap) ==> forall|l: int|
            0 <= l < lines.len() ==> line_is_greedy(
                items@,
                main_gap as int,
                available_main as int,
                #[trigger] lines[l],
            ),
{
    let wrapping = match wrap {
        FlexWrap::Wrap | FlexWrap::WrapReverse => true,
        FlexWrap::NoWrap => false,
    };
    let ghost gap = main_gap as int;
    let ghost avail = available_main as int;
    let mut lines: Vec<FlexLine> = Vec::new();
    let mut start: usize = 0;
    let mut used: i64 = 0;
    let mut index: usize = 0;
    while index < items.len()
        invariant
            items.len() <= MAX_ITEMS,
            wrapping == can_wrap(wrap),
            gap == main_gap as int,
            avail == available_main as int,
            start <= index <= items.len(),
            index > 0 ==> start < index,
            used == base_extent(items@, gap, start as int, index as int),
            lines@ + lines_from(items@, gap, avail, wrap, start as int) == flex_lines(
                items@,
                gap,
                avail,
                wrap,
            ),
            wrapping && index > start ==> line_end_from(items@, gap, avail, start as int, start + 1)
                == line_end_from(items@, gap, avail, start as int, index as int),
            forall|l: int| 0 <= l < lines.len() ==> (#[trigger] lines[l]).start < lines[l].end <= start,
            lines.len() > 0 ==> lines[0].start == 0 && lines[lines.len() - 1].end == start,
            lines.len() == 0 ==> start == 0,
            forall|l: int| 0 < l < lines.len() ==> #[trigger] follows(lines@, l),
            !wrapping ==> lines.len() == 0,
            forall|l: int|
                0 <= l < lines.len() ==> line_is_greedy(items@, gap, avail, #[trigger] lines[l]),
            wrapping ==> forall|j: int|
                start < j < index ==> #[trigger] base_extent(items@, gap, start as int, j + 1)
                    <= avail,
        decreases items.len() - index,
    {
        let base = items[index].base_main as i64;
        proof {
            lemma_base_extent_bounds(items@, gap, start as int, index as int);
            lemma_base_extent_bounds(items@, gap, start as int, index + 1);
            assert(sum_base_main(items@, start as int, index + 1) == sum_base_main(
                items@,
                start as int,
                index as int,
            ) + base);
            assert(gap * (index + 1 - start - 1) == gap * (index - start - 1) + gap)
                by (nonlinear_arith);
            if index == start {
                assert(sum_base_main(items@, start as int, index as int) == 0);
                assert(gap * (index + 1 - start - 1) == 0) by (nonlinear_arith)
                    requires
                        index == start,
                ;
            }
        }
        let additional_gap: i64 = if index > start {
            main_gap as i64
        } else {
            0
        };
        let candidate: i64 = used + additional_gap + base;
        assert(candidate == base_extent(items@, gap, start as int, index + 1));
        if wrapping && index > start && candidate > available_main {
            proof {
                let line = FlexLine { start, end: index };
                assert(line_end(items@, gap, avail, wrap, start as int) == index);
                assert(lines_from(items@, gap, avail, wrap, start as int) == seq![line]
                    + lines_from(items@, gap, avail, wrap, index as int));
                assert(lines@.push(line) + lines_from(items@, gap, avail, wrap, index as int)
                    =~= lines@ + (seq![line] + lines_from(items@, gap, avail, wrap, index as int)));
                assert(line_is_greedy(items@, gap, avail, line));
            }
            let ghost earlier = lines@;
            lines.push(FlexLine { start, end: index });
            proof {
                assert forall|l: int| 0 < l < lines.len() implies #[trigger] follows(lines@, l) by {
                    if l < earlier.len() {
                        assert(follows(earlier, l));
                    }
                }
            }
            start = index;
            used = base;
            proof {
                assert(sum_base_main(items@, start as int, start as int) == 0);
                assert(sum_base_main(items@, start as int, start + 1) == base);
                assert(gap * (start + 1 - start - 1) == 0) by (nonlinear_arith);
                assert(base_extent(items@, gap, start as int, start + 1) == base);
            }
        } else {
            used = candidate;
        }
        index = index + 1;
    }
    if start < items.len() {
        proof {
            let line = FlexLine { start, end: index };
            if wrapping {
                if index > start + 1 {
                } else {
                    assert(index == start + 1);
                }
                assert(line_end_from(items@, gap, avail, start as int, index as int) == index);
                lemma_line_end_from_range(items@, gap, avail, start as int, start + 1);
            }
            assert(line_end(items@, gap, avail, wrap, start as int) == index);
            assert(lines_from(items@, gap, avail, wrap, index as int) == Seq::<FlexLine>::empty());
            assert(lines_from(items@, gap, avail, wrap, start as int) =~= seq![line]);
            assert(lines@.push(line) =~= lines@ + seq![line]);
            if wrapping {
                assert(line_is_greedy(items@, gap, avail, line));
            }
        }
        let ghost earlier = lines@;
        lines.push(FlexLine { start, end: index });
        proof {
            assert forall|l: int| 0 < l < lines.len() implies #[trigger] follows(lines@, l) by {
                if l < earlier.len() {
                    assert(follows(earlier, l));
                }
            }
        }
    } else {
        proof {
            assert(lines_from(items@, gap, avail, wrap, start as int) == Seq::<FlexLine>::empty());
            assert(lines@ + Seq::<FlexLine>::empty() =~= lines@);
        }
    }
    lines
}

} // verus!
