//! Size specifications and the edge widths of the box model.

use vstd::prelude::*;

use crate::color::Color;

verus! {

/// Addition on the pixel grid saturates at `u32::MAX` instead of wrapping.
pub open spec fn sat32(v: int) -> u32 {
    if v >= u32::MAX { u32::MAX } else if v <= 0 { 0u32 } else { v as u32 }
}

/// How a frame sizes itself along one axis.
///
/// `Pixel` is an exact extent. `Percent` holds whole percent points of the
/// space the parent offers (50 is half of it); a value over 100 asks for
/// more than the parent offers. `Fill` takes everything the parent offers.
/// `Fit` and `Auto` wrap the frame's content.
#[derive(Debug, Clone, Copy, PartialEq, Eq, Structural)]
pub enum SizeSpec {
    Fill,
    Fit,
    Pixel(u32),
    Percent(u32),
    Auto,
}

/// What a size specification resolves to against the extent the parent
/// offers: a concrete extent for `Pixel`, `Percent` and `Fill`, nothing for
/// the content-driven `Fit` and `Auto`.
pub open spec fn spec_resolve_size(s: SizeSpec, offered: u32) -> Option<u32> {
    match s {
        SizeSpec::Pixel(px) => Some(px),
        SizeSpec::Percent(pct) => Some(sat32(offered * pct / 100)),
        SizeSpec::Fill => Some(offered),
        SizeSpec::Fit => None,
        SizeSpec::Auto => None,
    }
}

impl SizeSpec {
    /// Resolves the specification against the extent the parent offers.
    pub fn resolve_size(&self, offered: u32) -> (r: Option<u32>)
        ensures
            r == spec_resolve_size(*self, offered),
    {
        match self {
            SizeSpec::Pixel(px) => Some(*px),
            SizeSpec::Percent(pct) => {
                proof {
                    assert(offered * *pct <= u32::MAX * u32::MAX) by (nonlinear_arith)
                        requires
                            offered <= u32::MAX,
                            *pct <= u32::MAX,
                    ;
                }
                let scaled: u64 = (offered as u64) * (*pct as u64) / 100;
                if scaled >= u32::MAX as u64 {
                    Some(u32::MAX)
                } else {
                    Some(scaled as u32)
                }
            },
            SizeSpec::Fill => Some(offered),
            SizeSpec::Fit => None,
            SizeSpec::Auto => None,
        }
    }

    /// The exact pixel extent, or zero for every dynamic specification.
    pub fn get(&self) -> (r: u32)
        ensures
            r == self.spec_get(),
    {
        match self {
            SizeSpec::Pixel(px) => *px,
            _ => 0,
        }
    }

    /// The exact pixel extent, or zero for every dynamic specification.
    pub open spec fn spec_get(&self) -> u32 {
        match self {
            SizeSpec::Pixel(px) => *px,
            _ => 0u32,
        }
    }

    /// The pixel area spanned by two exact axis specifications.
    pub fn area(&self, other_spec: &SizeSpec) -> (r: u32)
        requires
            self.spec_get() * other_spec.spec_get() <= u32::MAX,
        ensures
            r == self.spec_get() * other_spec.spec_get(),
    {
        self.get() * other_spec.get()
    }

    /// The percent points, or zero for every other specification.
    pub fn percent(&self) -> (r: u32)
        ensures
            self is Percent ==> r == self->Percent_0,
            !(self is Percent) ==> r == 0,
    {
        match self {
            SizeSpec::Percent(pct) => *pct,
            _ => 0,
        }
    }

    pub(crate) fn is_fit(&self) -> (r: bool)
        ensures
            r == (*self is Fit),
    {
        matches!(self, SizeSpec::Fit)
    }

    pub(crate) fn is_fill(&self) -> (r: bool)
        ensures
            r == (*self is Fill),
    {
        matches!(self, SizeSpec::Fill)
    }

    pub(crate) fn is_auto(&self) -> (r: bool)
        ensures
            r == (*self is Auto),
    {
        matches!(self, SizeSpec::Auto)
    }

    pub(crate) fn is_pixel(&self) -> (r: bool)
        ensures
            r == (*self is Pixel),
    {
        matches!(self, SizeSpec::Pixel(_))
    }

    pub(crate) fn is_percent(&self) -> (r: bool)
        ensures
            r == (*self is Percent),
    {
        matches!(self, SizeSpec::Percent(_))
    }
}

impl Default for SizeSpec {
    fn default() -> (s: SizeSpec)
        ensures
            s == SizeSpec::Pixel(0u32),
    {
        SizeSpec::Pixel(0)
    }
}

/// Inner spacing between a frame's border and its content, per edge.
#[derive(Debug, Clone, Copy, PartialEq, Eq, Structural)]
pub struct Padding {
    pub left: u32,
    pub right: u32,
    pub top: u32,
    pub bottom: u32,
}

impl Padding {
    /// Padding from all four edges.
    pub fn new(left: u32, right: u32, top: u32, bottom: u32) -> (p: Padding)
        ensures
            p == (Padding { left, right, top, bottom }),
    {
        Padding { left, right, top, bottom }
    }

    /// The same padding on every edge.
    pub fn new_all(all: u32) -> (p: Padding)
        ensures
            p == (Padding { left: all, right: all, top: all, bottom: all }),
    {
        Padding::new(all, all, all, all)
    }

    /// One padding for left and right, another for top and bottom.
    pub fn new_lr_tb(lr: u32, tb: u32) -> (p: Padding)
        ensures
            p == (Padding { left: lr, right: lr, top: tb, bottom: tb }),
    {
        Padding::new(lr, lr, tb, tb)
    }

    /// Whether every edge is zero.
    pub fn is_zero(&self) -> (r: bool)
        ensures
            r == (self.left == 0 && self.right == 0 && self.top == 0 && self.bottom == 0),
    {
        self.left == 0 && self.right == 0 && self.top == 0 && self.bottom == 0
    }
}

impl Default for Padding {
    fn default() -> (p: Padding)
        ensures
            p == (Padding { left: 0u32, right: 0u32, top: 0u32, bottom: 0u32 }),
    {
        Padding { left: 0, right: 0, top: 0, bottom: 0 }
    }
}

/// Outer spacing a frame claims around itself, per edge.
#[derive(Debug, Clone, Copy, PartialEq, Eq, Structural)]
pub struct Margin {
    pub left: u32,
    pub right: u32,
    pub top: u32,
    pub bottom: u32,
}

impl Margin {
    /// Margin from all four edges.
    pub fn new(left: u32, right: u32, top: u32, bottom: u32) -> (m: Margin)
        ensures
            m == (Margin { left, right, top, bottom }),
    {
        Margin { left, right, top, bottom }
    }

    /// The same margin on every edge.
    pub fn new_all(all: u32) -> (m: Margin)
        ensures
            m == (Margin { left: all, right: all, top: all, bottom: all }),
    {
        Margin::new(all, all, all, all)
    }

    /// One margin for left and right, another for top and bottom.
    pub fn new_lr_tb(lr: u32, tb: u32) -> (m: Margin)
        ensures
            m == (Margin { left: lr, right: lr, top: tb, bottom: tb }),
    {
        Margin::new(lr, lr, tb, tb)
    }
}

impl Default for Margin {
    fn default() -> (m: Margin)
        ensures
            m == (Margin { left: 0u32, right: 0u32, top: 0u32, bottom: 0u32 }),
    {
        Margin { left: 0, right: 0, top: 0, bottom: 0 }
    }
}

/// A frame's border: stroke width in pixels, corner radius, stroke color.
/// The stroke width takes space inside the frame on all four edges.
#[derive(Debug, Clone, Copy, PartialEq, Eq, Structural)]
pub struct Border {
    pub size: u32,
    pub radius: u32,
    pub color: Color,
}

impl Default for Border {
    fn default() -> (b: Border)
        ensures
            b == (Border { size: 0u32, radius: 0u32, color: Color { r: 255u8, g: 255u8, b: 255u8, a: 255u8 } }),
    {
        Border { size: 0, radius: 0, color: Color { r: 255, g: 255, b: 255, a: 255 } }
    }
}

/// A frame's drop shadow: color and blur extent in pixels. Purely visual;
/// takes no layout space.
#[derive(Debug, Clone, Copy, PartialEq, Eq, Structural)]
pub struct Shadow {
    pub color: Color,
    pub blur: u32,
}

impl Default for Shadow {
    fn default() -> (s: Shadow)
        ensures
            s == (Shadow { color: Color { r: 0u8, g: 0u8, b: 0u8, a: 0u8 }, blur: 0u32 }),
    {
        Shadow { color: Color { r: 0, g: 0, b: 0, a: 0 }, blur: 0 }
    }
}

} // verus!
