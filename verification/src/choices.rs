//! The plain choices that describe how drawn items look.

use vstd::prelude::*;

verus! {

/// How a line is stroked.
#[derive(Debug, Clone, Copy, PartialEq, Eq, Structural)]
pub enum LineChoice {
    Ordinary,
    Light,
}

impl Default for LineChoice {
    fn default() -> (r: Self)
        ensures
            r == LineChoice::Ordinary,
    {
        LineChoice::Ordinary
    }
}

/// The mark drawn at a point.
#[derive(Debug, Clone, Copy, PartialEq, Eq, Structural)]
pub enum PointChoice {
    Circle,
    Dot,
    Plus,
    Times,
}

impl Default for PointChoice {
    fn default() -> (r: Self)
        ensures
            r == PointChoice::Circle,
    {
        PointChoice::Circle
    }
}

/// Horizontal anchoring of text.
#[derive(Debug, Clone, Copy, PartialEq, Eq, Structural)]
pub enum TextAnchorHorizontal {
    Center,
    Left,
    Right,
}

impl Default for TextAnchorHorizontal {
    fn default() -> (r: Self)
        ensures
            r == TextAnchorHorizontal::Center,
    {
        TextAnchorHorizontal::Center
    }
}

/// Vertical anchoring of text.
#[derive(Debug, Clone, Copy, PartialEq, Eq, Structural)]
pub enum TextAnchorVertical {
    Middle,
    Bottom,
    Top,
}

impl Default for TextAnchorVertical {
    fn default() -> (r: Self)
        ensures
            r == TextAnchorVertical::Middle,
    {
        TextAnchorVertical::Middle
    }
}

/// Normal vs annotation vs title text.
#[derive(Debug, Clone, Copy, PartialEq, Eq, Structural)]
pub enum TextSizeChoice {
    Normal,
    Large,
    Small,
}

impl Default for TextSizeChoice {
    fn default() -> (r: Self)
        ensures
            r == TextSizeChoice::Normal,
    {
        TextSizeChoice::Normal
    }
}

/// Directions (horizontal, vertical) over which to offset anchoring.
#[derive(Debug, Clone, Copy, PartialEq, Eq, Structural)]
pub enum TextOffsetChoice {
    NoOffset,
    Diagram,
}

impl Default for TextOffsetChoice {
    fn default() -> (r: Self)
        ensures
            r == TextOffsetChoice::NoOffset,
    {
        TextOffsetChoice::NoOffset
    }
}

/// Whether a path is left open or closed.
#[derive(Debug, Clone, Copy, PartialEq, Eq, Structural)]
pub enum LineClosureChoice {
    Open,
    Closed,
}

impl Default for LineClosureChoice {
    fn default() -> (r: Self)
        ensures
            r == LineClosureChoice::Open,
    {
        LineClosureChoice::Open
    }
}

/// Whether a segment starts a new path or continues the current one.
#[derive(Debug, Clone, Copy, PartialEq, Eq, Structural)]
pub enum ContinuationChoice {
    Starts,
    Continues,
}

impl Default for ContinuationChoice {
    fn default() -> (r: Self)
        ensures
            r == ContinuationChoice::Starts,
    {
        ContinuationChoice::Starts
    }
}

/// How a segment joins the path before it, and whether the path is closed.
#[derive(Debug, Clone, Copy, PartialEq, Eq, Structural)]
pub struct SegmentChoices {
    pub continuation: ContinuationChoice,
    pub closure: LineClosureChoice,
}

impl Default for SegmentChoices {
    fn default() -> (r: Self)
        ensures
            r == (SegmentChoices {
                continuation: ContinuationChoice::Starts,
                closure: LineClosureChoice::Open,
            }),
    {
        SegmentChoices { continuation: ContinuationChoice::default(), closure: LineClosureChoice::default() }
    }
}

/// The palette of diagram colors.
#[derive(Debug, Clone, Copy, PartialEq, Eq, Structural)]
pub enum ColorChoice {
    DefaultBlack,
    Black,
    Gray,
    DarkGray,
    LightGray,
    BrightRed,
    BrightGreen,
    BrightBlue,
    BrightYellow,
    BrightCyan,
    BrightMagenta,
    Red,
    Green,
    Blue,
    YellowBrown,
    BlueGreen,
    BlueRed,
    RedRedGreen,
    GreenGreenRed,
    BlueBlueGreen,
    GreenGreenBlue,
    RedRedBlue,
    BlueBlueRed,
}

impl Default for ColorChoice {
    fn default() -> (r: Self)
        ensures
            r == ColorChoice::DefaultBlack,
    {
        ColorChoice::DefaultBlack
    }
}

/// Where text is anchored: centered, or at one of nine positions.
#[derive(Debug, Clone, Copy, PartialEq, Eq, Structural)]
pub enum TextAnchorChoice {
    Centered,
    ThreeByThree(TextAnchorHorizontal, TextAnchorVertical),
}

impl Default for TextAnchorChoice {
    fn default() -> (r: Self)
        ensures
            r == TextAnchorChoice::Centered,
    {
        TextAnchorChoice::Centered
    }
}

/// The line and color choices of a stroked path.
#[derive(Debug, Clone, Copy, PartialEq, Eq, Structural)]
pub struct PathChoices {
    pub line_choice: LineChoice,
    pub color: ColorChoice,
}

impl Default for PathChoices {
    fn default() -> (r: Self)
        ensures
            r == (PathChoices { line_choice: LineChoice::Ordinary, color: ColorChoice::DefaultBlack }),
    {
        PathChoices { line_choice: LineChoice::default(), color: ColorChoice::default() }
    }
}

/// A path together with how it is stroked.
#[derive(Debug, PartialEq)]
pub struct Strokeable<T: Default + PartialEq> {
    pub path: T,
    pub path_choices: PathChoices,
}

impl<T: Default + PartialEq> Default for Strokeable<T> {
    fn default() -> (r: Self)
        ensures
            call_ensures(T::default, (), r.path),
            r.path_choices == PathChoices::default_choices(),
    {
        let path = T::default();
        let path_choices = PathChoices::default();
        proof {
            assert(call_ensures(T::default, (), path));
        }
        Strokeable { path, path_choices }
    }
}

impl PathChoices {
    /// The default path choices: an ordinary line in the default black.
    pub open spec fn default_choices() -> PathChoices {
        PathChoices { line_choice: LineChoice::Ordinary, color: ColorChoice::DefaultBlack }
    }
}

} // verus!
