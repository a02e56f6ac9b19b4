//! Draw commands a renderer consumes after layout.

use vstd::prelude::*;

use crate::color::Color;

verus! {

/// One drawing order, tagged with its z-index for back-to-front sorting.
#[derive(Debug, Clone, Copy, PartialEq, Eq, Structural)]
pub struct Command {
    pub z_index: u32,
    pub desc: Drawing,
}

/// The shape a command draws.
#[derive(Debug, Clone, Copy, PartialEq, Eq, Structural)]
pub enum Drawing {
    Rectangle { x: i32, y: i32, width: u32, height: u32, color: Color },
}

} // verus!
