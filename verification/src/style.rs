//! Style values: the property bag that layout reads, and the rules that fill it.
//!
//! Every property is optional. An absent property means "unset": the layout
//! applies its documented default, which is not always zero.

use vstd::prelude::*;

verus! {

/// How a box lays out its children.
#[derive(Clone, Copy, Debug, PartialEq, Eq, Structural)]
pub enum Display {
    Block,
    Flex,
}

/// The main axis of a flex container and the sense in which it runs.
#[derive(Clone, Copy, Debug, PartialEq, Eq, Structural)]
pub enum FlexDirection {
    Row,
    RowReverse,
    Column,
    ColumnReverse,
}

/// Whether a flex container may break its items into several lines.
#[derive(Clone, Copy, Debug, PartialEq, Eq, Structural)]
pub enum FlexWrap {
    NoWrap,
    Wrap,
    WrapReverse,
}

/// Distribution of leftover space along the main axis.
#[derive(Clone, Copy, Debug, PartialEq, Eq, Structural)]
pub enum JustifyContent {
    FlexStart,
    FlexEnd,
    Center,
    SpaceBetween,
    SpaceAround,
    SpaceEvenly,
}

/// Alignment of items within a line along the cross axis.
#[derive(Clone, Copy, Debug, PartialEq, Eq, Structural)]
pub enum AlignItems {
    FlexStart,
    FlexEnd,
    Center,
    Baseline,
    Stretch,
}

/// An item's own override of its container's `AlignItems`.
#[derive(Clone, Copy, Debug, PartialEq, Eq, Structural)]
pub enum AlignSelf {
    Auto,
    FlexStart,
    FlexEnd,
    Center,
    Baseline,
    Stretch,
}

/// A length: `auto`, or a whole, non-negative number of layout units.
#[derive(Clone, Copy, Debug, PartialEq, Eq, Structural)]
pub enum Length {
    Auto,
    Px(u32),
}

impl Length {
    /// The length in layout units; `auto` counts as 0.
    pub open spec fn px(self) -> int {
        match self {
            Length::Auto => 0,
            Length::Px(v) => v as int,
        }
    }

    /// The length in layout units; `auto` counts as 0.
    pub fn to_px(&self) -> (v: u32)
        ensures
            v == self.px(),
    {
        match self {
            Length::Auto => 0,
            Length::Px(v) => *v,
        }
    }

    /// Whether this is an explicit number of units rather than `auto`.
    pub fn is_px(&self) -> (b: bool)
        ensures
            b == (*self is Px),
    {
        match self {
            Length::Auto => false,
            Length::Px(_) => true,
        }
    }
}

/// One length for each side of a box.
#[derive(Clone, Copy, Debug, PartialEq, Eq, Structural)]
pub struct Sides {
    pub top: Length,
    pub right: Length,
    pub bottom: Length,
    pub left: Length,
}

impl Sides {
    /// The same length on all four sides.
    pub open spec fn uniform_spec(all: Length) -> Sides {
        Sides { top: all, right: all, bottom: all, left: all }
    }

    /// The same length on all four sides.
    pub fn uniform(all: Length) -> (s: Sides)
        ensures
            s == Sides::uniform_spec(all),
    {
        Sides { top: all, right: all, bottom: all, left: all }
    }

    /// Four sides of zero units.
    pub open spec fn zero() -> Sides {
        Sides::uniform_spec(Length::Px(0))
    }
}

/// The properties of one box, each set or unset.
#[derive(Clone, Copy, Debug, PartialEq, Eq, Structural)]
pub struct Style {
    pub display: Option<Display>,
    pub flex_direction: Option<FlexDirection>,
    pub flex_wrap: Option<FlexWrap>,
    pub justify_content: Option<JustifyContent>,
    pub align_items: Option<AlignItems>,
    pub align_self: Option<AlignSelf>,
    pub order: Option<i32>,
    pub flex_grow: Option<u32>,
    pub flex_shrink: Option<u32>,
    pub flex_basis: Option<Length>,
    pub width: Option<Length>,
    pub height: Option<Length>,
    pub gap: Option<Length>,
    pub row_gap: Option<Length>,
    pub column_gap: Option<Length>,
    pub padding: Option<Sides>,
    pub margin: Option<Sides>,
    pub border_width: Option<Length>,
}

/// One property assignment of a rule.
#[derive(Clone, Copy, Debug, PartialEq, Eq, Structural)]
pub enum Declaration {
    Display(Display),
    FlexDirection(FlexDirection),
    FlexWrap(FlexWrap),
    JustifyContent(JustifyContent),
    AlignItems(AlignItems),
    AlignSelf(AlignSelf),
    Order(i32),
    FlexGrow(u32),
    FlexShrink(u32),
    FlexBasis(Length),
    Width(Length),
    Height(Length),
    Gap(Length),
    RowGap(Length),
    ColumnGap(Length),
    Padding(Sides),
    Margin(Sides),
    MarginTop(Length),
    MarginRight(Length),
    MarginBottom(Length),
    MarginLeft(Length),
    BorderWidth(Length),
}

impl Style {
    /// The style with every property unset.
    pub open spec fn unset() -> Style {
        Style {
            display: None,
            flex_direction: None,
            flex_wrap: None,
            justify_content: None,
            align_items: None,
            align_self: None,
            order: None,
            flex_grow: None,
            flex_shrink: None,
            flex_basis: None,
            width: None,
            height: None,
            gap: None,
            row_gap: None,
            column_gap: None,
            padding: None,
            margin: None,
            border_width: None,
        }
    }

    /// The style with every property unset.
    pub fn new() -> (s: Style)
        ensures
            s == Style::unset(),
    {
        Style {
            display: None,
            flex_direction: None,
            flex_wrap: None,
            justify_content: None,
            align_items: None,
            align_self: None,
            order: None,
            flex_grow: None,
            flex_shrink: None,
            flex_basis: None,
            width: None,
            height: None,
            gap: None,
            row_gap: None,
            column_gap: None,
            padding: None,
            margin: None,
            border_width: None,
        }
    }

    /// The margin sides of this style, zero where no margin is set.
    pub open spec fn margin_or_zero(self) -> Sides {
        match self.margin {
            Some(m) => m,
            None => Sides::zero(),
        }
    }

    /// This style after one declaration: the declared property takes the
    /// declared value and every other property stays. A one-sided margin
    /// keeps the other three sides, which are zero if no margin was set.
    pub open spec fn merged(self, d: Declaration) -> Style {
        match d {
            Declaration::Display(v) => Style { display: Some(v), ..self },
            Declaration::FlexDirection(v) => Style { flex_direction: Some(v), ..self },
            Declaration::FlexWrap(v) => Style { flex_wrap: Some(v), ..self },
            Declaration::JustifyContent(v) => Style { justify_content: Some(v), ..self },
            Declaration::AlignItems(v) => Style { align_items: Some(v), ..self },
            Declaration::AlignSelf(v) => Style { align_self: Some(v), ..self },
            Declaration::Order(v) => Style { order: Some(v), ..self },
            Declaration::FlexGrow(v) => Style { flex_grow: Some(v), ..self },
            Declaration::FlexShrink(v) => Style { flex_shrink: Some(v), ..self },
            Declaration::FlexBasis(v) => Style { flex_basis: Some(v), ..self },
            Declaration::Width(v) => Style { width: Some(v), ..self },
            Declaration::Height(v) => Style { height: Some(v), ..self },
            Declaration::Gap(v) => Style { gap: Some(v), ..self },
            Declaration::RowGap(v) => Style { row_gap: Some(v), ..self },
            Declaration::ColumnGap(v) => Style { column_gap: Some(v), ..self },
            Declaration::Padding(v) => Style { padding: Some(v), ..self },
            Declaration::Margin(v) => Style { margin: Some(v), ..self },
            Declaration::MarginTop(v) => Style {
                margin: Some(Sides { top: v, ..self.margin_or_zero() }),
                ..self
            },
            Declaration::MarginRight(v) => Style {
                margin: Some(Sides { right: v, ..self.margin_or_zero() }),
                ..self
            },
            Declaration::MarginBottom(v) => Style {
                margin: Some(Sides { bottom: v, ..self.margin_or_zero() }),
                ..self
            },
            Declaration::MarginLeft(v) => Style {
                margin: Some(Sides { left: v, ..self.margin_or_zero() }),
                ..self
            },
            Declaration::BorderWidth(v) => Style { border_width: Some(v), ..self },
        }
    }

    /// This style after a list of declarations, applied first to last, so
    /// that the last declaration of a property wins.
    pub open spec fn merged_all(self, ds: Seq<Declaration>) -> Style
        decreases ds.len(),
    {
        if ds.len() == 0 {
            self
        } else {
            self.merged_all(ds.drop_last()).merged(ds.last())
        }
    }

    fn margin_sides(&self) -> (m: Sides)
        ensures
            m == self.margin_or_zero(),
    {
        match self.margin {
            Some(m) => m,
            None => Sides::uniform(Length::Px(0)),
        }
    }

    /// Applies one declaration to this style.
    pub fn merge(&mut self, declaration: &Declaration)
        ensures
            *final(self) == old(self).merged(*declaration),
    {
        match *declaration {
            Declaration::Display(v) => {
                self.display = Some(v);
            },
            Declaration::FlexDirection(v) => {
                self.flex_direction = Some(v);
            },
            Declaration::FlexWrap(v) => {
                self.flex_wrap = Some(v);
            },
            Declaration::JustifyContent(v) => {
                self.justify_content = Some(v);
            },
            Declaration::AlignItems(v) => {
                self.align_items = Some(v);
            },
            Declaration::AlignSelf(v) => {
                self.align_self = Some(v);
            },
            Declaration::Order(v) => {
                self.order = Some(v);
            },
            Declaration::FlexGrow(v) => {
                self.flex_grow = Some(v);
            },
            Declaration::FlexShrink(v) => {
                self.flex_shrink = Some(v);
            },
            Declaration::FlexBasis(v) => {
                self.flex_basis = Some(v);
            },
            Declaration::Width(v) => {
                self.width = Some(v);
            },
            Declaration::Height(v) => {
                self.height = Some(v);
            },
            Declaration::Gap(v) => {
                self.gap = Some(v);
            },
            Declaration::RowGap(v) => {
                self.row_gap = Some(v);
            },
            Declaration::ColumnGap(v) => {
                self.column_gap = Some(v);
            },
            Declaration::Padding(v) => {
                self.padding = Some(v);
            },
            Declaration::Margin(v) => {
                self.margin = Some(v);
            },
            Declaration::MarginTop(v) => {
                let m = self.margin_sides();
                self.margin = Some(Sides { top: v, right: m.right, bottom: m.bottom, left: m.left });
            },
            Declaration::MarginRight(v) => {
                let m = self.margin_sides();
                self.margin = Some(Sides { top: m.top, right: v, bottom: m.bottom, left: m.left });
            },
            Declaration::MarginBottom(v) => {
                let m = self.margin_sides();
                self.margin = Some(Sides { top: m.top, right: m.right, bottom: v, left: m.left });
            },
            Declaration::MarginLeft(v) => {
                let m = self.margin_sides();
                self.margin = Some(Sides { top: m.top, right: m.right, bottom: m.bottom, left: v });
            },
            Declaration::BorderWidth(v) => {
                self.border_width = Some(v);
            },
        }
    }

    /// Applies a list of declarations to this style, first to last.
    pub fn merge_all(&mut self, declarations: &Vec<Declaration>)
        ensures
            *final(self) == old(self).merged_all(declarations@),
    {
        let mut i: usize = 0;
        while i < declarations.len()
            invariant
                i <= declarations.len(),
                *self == old(self).merged_all(declarations@.take(i as int)),
            decreases declarations.len() - i,
        {
            assert(declarations@.take(i + 1).drop_last() == declarations@.take(i as int));
            self.merge(&declarations[i]);
            i = i + 1;
        }
        assert(declarations@.take(i as int) == declarations@);
    }
}

impl Default for Style {
    fn default() -> (s: Style)
        ensures
            s == Style::unset(),
    {
        Style::new()
    }
}

/// What a rule applies to.
pub enum Selector {
    /// The boxes whose `class` attribute lists this name.
    Class(String),
}

/// A selector and the declarations it brings to the boxes it matches.
pub struct Rule {
    pub selector: Selector,
    pub declarations: Vec<Declaration>,
}

/// An ordered list of rules.
pub struct StyleSheet {
    pub rules: Vec<Rule>,
}

impl StyleSheet {
    /// A style sheet without rules.
    pub fn new() -> (sheet: StyleSheet)
        ensures
            sheet.rules@.len() == 0,
    {
        StyleSheet { rules: Vec::new() }
    }

    /// Adds a rule for a class after the rules already there.
    pub fn add_class_rule(&mut self, class: String, declarations: Vec<Declaration>)
        ensures
            final(self).rules@.len() == old(self).rules@.len() + 1,
            final(self).rules@.take(old(self).rules@.len() as int) == old(self).rules@,
            final(self).rules@.last().selector == Selector::Class(class),
            final(self).rules@.last().declarations == declarations,
    {
        self.rules.push(Rule { selector: Selector::Class(class), declarations });
        assert(self.rules@.take(old(self).rules@.len() as int) =~= old(self).rules@);
    }
}

} // verus!
