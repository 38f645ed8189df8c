//! The plain choices that describe how a diagram is laid out.

use vstd::prelude::*;

verus! {

/// How a diagram is fitted to its canvas.
#[derive(Debug, Clone, Copy, PartialEq, Eq, Structural)]
pub enum SizingScheme {
    SquareShrink,
    SquareCenter,
    Fill,
}

impl Default for SizingScheme {
    fn default() -> (r: Self)
        ensures
            r == SizingScheme::SquareShrink,
    {
        SizingScheme::SquareShrink
    }
}

/// The style of drawn axes.
#[derive(Debug, Clone, Copy, PartialEq, Eq, Structural)]
pub enum AxesStyle {
    NoAxes,
    Boxed,
    Cross,
    BoxCross,
}

impl Default for AxesStyle {
    fn default() -> (r: Self)
        ensures
            r == AxesStyle::NoAxes,
    {
        AxesStyle::NoAxes
    }
}

/// Where axis numbers are placed relative to ticks.
#[derive(Debug, Clone, Copy, PartialEq, Eq, Structural)]
pub enum AxisNumbering {
    At,
    Before,
    After,
    NoNumbering,
}

impl Default for AxisNumbering {
    fn default() -> (r: Self)
        ensures
            r == AxisNumbering::At,
    {
        AxisNumbering::At
    }
}

/// Whether a background box is drawn behind a sample diagram.
#[derive(Debug, Clone, Copy, PartialEq, Eq, Structural)]
pub enum BackgroundBox {
    Nothing,
    Shrink,
}

impl Default for BackgroundBox {
    fn default() -> (r: Self)
        ensures
            r == BackgroundBox::Nothing,
    {
        BackgroundBox::Nothing
    }
}

} // verus!
