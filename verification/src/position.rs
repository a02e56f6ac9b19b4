//! Positioning and flow declarations of the box model.

use vstd::prelude::*;

verus! {

/// How a frame is placed relative to its parent.
///
/// An `Auto` frame is in-flow: the parent's layout strategy decides where it
/// goes. A `Fixed` frame is out-of-flow: it is offset from the parent's
/// content-box origin and ignored by flow layout and by measurement.
#[derive(Debug, Clone, Copy, PartialEq, Eq, Structural)]
pub enum Position {
    Fixed { x: u32, y: u32 },
    Auto,
}

impl Default for Position {
    fn default() -> (p: Position)
        ensures
            p == Position::Auto,
    {
        Position::Auto
    }
}

/// Main axis of flow layout: `Row` lays children out left to right,
/// `Column` top to bottom.
#[derive(Debug, Clone, Copy, PartialEq, Eq, Structural)]
pub enum Direction {
    Row,
    Column,
}

impl Default for Direction {
    fn default() -> (d: Direction)
        ensures
            d == Direction::Row,
    {
        Direction::Row
    }
}

/// How a frame arranges its children.
///
/// `Flex` flows children along the `Direction` axis, distributing remaining
/// space by grow/shrink weights. `NoStrategy` and `Grid` stack every child
/// at the content-box origin; `Grid` is a placeholder for a later design.
#[derive(Debug, Clone, Copy, PartialEq, Eq, Structural)]
pub enum LayoutStrategy {
    NoStrategy,
    Flex,
    Grid,
}

impl Default for LayoutStrategy {
    fn default() -> (l: LayoutStrategy)
        ensures
            l == LayoutStrategy::Flex,
    {
        LayoutStrategy::Flex
    }
}

/// Declared distribution of children along the main axis.
#[derive(Debug, Clone, Copy, PartialEq, Eq, Structural)]
pub enum JustifyContent {
    Start,
    Center,
    End,
    SpaceBetween,
    SpaceAround,
    SpaceEvenly,
}

impl Default for JustifyContent {
    fn default() -> (j: JustifyContent)
        ensures
            j == JustifyContent::Start,
    {
        JustifyContent::Start
    }
}

/// Declared alignment of children along the cross axis.
#[derive(Debug, Clone, Copy, PartialEq, Eq, Structural)]
pub enum AlignItems {
    Start,
    Center,
    End,
}

impl Default for AlignItems {
    fn default() -> (a: AlignItems)
        ensures
            a == AlignItems::Start,
    {
        AlignItems::Start
    }
}

} // verus!
