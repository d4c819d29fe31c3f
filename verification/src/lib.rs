//! A flexbox layout engine over a document tree, in whole layout units.

use vstd::prelude::*;

pub mod document;
pub mod engine;
pub mod flex_items;
pub mod flex_layout;
pub mod flex_lines;
pub mod flex_place;
pub mod flex_resolve;
pub mod geometry;
pub mod layout;
pub mod relayout;
pub mod style;
pub mod style_patch;
pub mod text;

pub use engine::{Command, Engine, RunError};

verus! {

/// The identity of a document node. The root of a document is `Id` 0.
#[derive(Clone, Copy, Default, Debug, Eq, Hash, PartialEq, Structural)]
pub struct Id(pub u64);

impl Id {
    /// The number behind this identity.
    pub fn value(&self) -> (v: u64)
        ensures
            v == self.0,
    {
        self.0
    }

    /// The number behind this identity, as `value` gives it.
    pub fn as_u64(&self) -> (v: u64)
        ensures
            v == self.0,
    {
        self.0
    }

    /// The identity with the given number.
    pub fn from_u64(value: u64) -> (id: Id)
        ensures
            id.0 == value,
    {
        Id(value)
    }
}

} // verus!
