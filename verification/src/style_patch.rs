//! What a list of declarations does to a style, whatever the style:
//! each property is either set to a value or left as it is.

use vstd::prelude::*;
use crate::style::{Declaration, Length, Sides, Style};

verus! {

/// The effect of a list of declarations. A property that is `Some` in
/// `set` is set to that value; any other property is kept. The margin is
/// kept as it is unless `margin_touched`; if it is touched, each side is
/// set to its value here, or kept where that is `None`, with 0 for a side
/// that no margin gave before.
pub struct Patch {
    pub set: Style,
    pub margin_touched: bool,
    pub top: Option<Length>,
    pub right: Option<Length>,
    pub bottom: Option<Length>,
    pub left: Option<Length>,
}

/// The value that a patch leaves in a property.
pub open spec fn patched<T>(set: Option<T>, kept: Option<T>) -> Option<T> {
    if set is Some {
        set
    } else {
        kept
    }
}

/// The length that a patch leaves on a side of the margin.
pub open spec fn patched_side(set: Option<Length>, kept: Length) -> Length {
    match set {
        Some(l) => l,
        None => kept,
    }
}

impl Patch {
    /// The patch that changes nothing.
    pub open spec fn none() -> Patch {
        Patch {
            set: Style::unset(),
            margin_touched: false,
            top: None,
            right: None,
            bottom: None,
            left: None,
        }
    }

    /// The style that this patch makes of `style`.
    pub open spec fn apply(self, style: Style) -> Style {
        Style {
            display: patched(self.set.display, style.display),
            flex_direction: patched(self.set.flex_direction, style.flex_direction),
            flex_wrap: patched(self.set.flex_wrap, style.flex_wrap),
            justify_content: patched(self.set.justify_content, style.justify_content),
            align_items: patched(self.set.align_items, style.align_items),
            align_self: patched(self.set.align_self, style.align_self),
            order: patched(self.set.order, style.order),
            flex_grow: patched(self.set.flex_grow, style.flex_grow),
            flex_shrink: patched(self.set.flex_shrink, style.flex_shrink),
            flex_basis: patched(self.set.flex_basis, style.flex_basis),
            width: patched(self.set.width, style.width),
            height: patched(self.set.height, style.height),
            gap: patched(self.set.gap, style.gap),
            row_gap: patched(self.set.row_gap, style.row_gap),
            column_gap: patched(self.set.column_gap, style.column_gap),
            padding: patched(self.set.padding, style.padding),
            margin: if self.margin_touched {
                Some(
                    Sides {
                        top: patched_side(self.top, style.margin_or_zero().top),
                        right: patched_side(self.right, style.margin_or_zero().right),
                        bottom: patched_side(self.bottom, style.margin_or_zero().bottom),
                        left: patched_side(self.left, style.margin_or_zero().left),
                    },
                )
            } else {
                style.margin
            },
            border_width: patched(self.set.border_width, style.border_width),
        }
    }

    /// This patch followed by one declaration.
    pub open spec fn with(self, d: Declaration) -> Patch {
        match d {
            Declaration::Margin(m) => Patch {
                margin_touched: true,
                top: Some(m.top),
                right: Some(m.right),
                bottom: Some(m.bottom),
                left: Some(m.left),
                ..self
            },
            Declaration::MarginTop(v) => Patch { margin_touched: true, top: Some(v), ..self },
            Declaration::MarginRight(v) => Patch { margin_touched: true, right: Some(v), ..self },
            Declaration::MarginBottom(v) => Patch { margin_touched: true, bottom: Some(v), ..self },
            Declaration::MarginLeft(v) => Patch { margin_touched: true, left: Some(v), ..self },
            _ => Patch { set: Style { margin: None, ..self.set.merged(d) }, ..self },
        }
    }

    /// This patch followed by a list of declarations.
    pub open spec fn with_all(self, ds: Seq<Declaration>) -> Patch
        decreases ds.len(),
    {
        if ds.len() == 0 {
            self
        } else {
            self.with_all(ds.drop_last()).with(ds.last())
        }
    }

    /// A patch records no margin among the properties it sets, and no side
    /// of a margin that it does not touch.
    pub open spec fn wf(self) -> bool {
        &&& self.set.margin is None
        &&& !self.margin_touched ==> self.top is None && self.right is None && self.bottom is None
            && self.left is None
    }

    /// One more declaration on a patched style is the longer patch.
    pub proof fn lemma_with(self, d: Declaration, style: Style)
        requires
            self.wf(),
        ensures
            self.with(d).wf(),
            self.apply(style).merged(d) == self.with(d).apply(style),
    {
        match d {
            Declaration::Display(_) => {
                assert(self.apply(style).merged(d) == self.with(d).apply(style));
            },
            Declaration::FlexDirection(_) => {
                assert(self.apply(style).merged(d) == self.with(d).apply(style));
            },
            Declaration::FlexWrap(_) => {
                assert(self.apply(style).merged(d) == self.with(d).apply(style));
            },
            Declaration::JustifyContent(_) => {
                assert(self.apply(style).merged(d) == self.with(d).apply(style));
            },
            Declaration::AlignItems(_) => {
                assert(self.apply(style).merged(d) == self.with(d).apply(style));
            },
            Declaration::AlignSelf(_) => {
                assert(self.apply(style).merged(d) == self.with(d).apply(style));
            },
            Declaration::Order(_) => {
                assert(self.apply(style).merged(d) == self.with(d).apply(style));
            },
            Declaration::FlexGrow(_) => {
                assert(self.apply(style).merged(d) == self.with(d).apply(style));
            },
            Declaration::FlexShrink(_) => {
                assert(self.apply(style).merged(d) == self.with(d).apply(style));
            },
            Declaration::FlexBasis(_) => {
                assert(self.apply(style).merged(d) == self.with(d).apply(style));
            },
            Declaration::Width(_) => {
                assert(self.apply(style).merged(d) == self.with(d).apply(style));
            },
            Declaration::Height(_) => {
                assert(self.apply(style).merged(d) == self.with(d).apply(style));
            },
            Declaration::Gap(_) => {
                assert(self.apply(style).merged(d) == self.with(d).apply(style));
            },
            Declaration::RowGap(_) => {
                assert(self.apply(style).merged(d) == self.with(d).apply(style));
            },
            Declaration::ColumnGap(_) => {
                assert(self.apply(style).merged(d) == self.with(d).apply(style));
            },
            Declaration::Padding(_) => {
                assert(self.apply(style).merged(d) == self.with(d).apply(style));
            },
            Declaration::Margin(_) => {
                assert(self.apply(style).merged(d) == self.with(d).apply(style));
            },
            Declaration::MarginTop(_) => {
                assert(self.apply(style).merged(d) == self.with(d).apply(style));
            },
            Declaration::MarginRight(_) => {
                assert(self.apply(style).merged(d) == self.with(d).apply(style));
            },
            Declaration::MarginBottom(_) => {
                assert(self.apply(style).merged(d) == self.with(d).apply(style));
            },
            Declaration::MarginLeft(_) => {
                assert(self.apply(style).merged(d) == self.with(d).apply(style));
            },
            Declaration::BorderWidth(_) => {
                assert(self.apply(style).merged(d) == self.with(d).apply(style));
            },
        }
    }

    /// More declarations on a patched style are the longer patch.
    pub proof fn lemma_with_all(self, ds: Seq<Declaration>, style: Style)
        requires
            self.wf(),
        ensures
            self.with_all(ds).wf(),
            self.apply(style).merged_all(ds) == self.with_all(ds).apply(style),
        decreases ds.len(),
    {
        if ds.len() > 0 {
            self.lemma_with_all(ds.drop_last(), style);
            self.with_all(ds.drop_last()).lemma_with(ds.last(), style);
        }
    }

    /// A patch applied twice is the patch applied once.
    pub proof fn lemma_apply_twice(self, style: Style)
        ensures
            self.apply(self.apply(style)) == self.apply(style),
    {
    }
}

} // verus!
