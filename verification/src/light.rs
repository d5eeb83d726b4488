//! Light sources.

use vstd::prelude::*;
use crate::fixed::Fixed;
use crate::vector::{Point, Vector};

verus! {

/// A source of light. The first field of every variant is its intensity.
#[derive(Clone, Copy, Debug, PartialEq, Eq, Structural)]
pub enum Light {
    /// Light that reaches every surface alike.
    Ambient(Fixed),
    /// Light that spreads from a position.
    Point(Fixed, Point),
    /// Light that arrives everywhere from the same direction.
    Directional(Fixed, Vector),
}

} // verus!
