//! The plain choices that describe curves and their sample plots.

use vstd::prelude::*;

use crate::choices::ColorChoice;
use crate::choices::LineChoice;
use crate::choices::PointChoice;

verus! {

/// The representation a rational quadratic curve is held in.
#[derive(Debug, Clone, Copy, PartialEq, Eq, Structural)]
pub enum RatQuadState {
    RationalPoly,
    SymmetricRange,
    RegularizedSymmetric,
    OffsetOddEven,
    FourPoint,
    ThreePointAngle,
    RationalWeighted,
}

impl Default for RatQuadState {
    fn default() -> (r: Self)
        ensures
            r == RatQuadState::RationalPoly,
    {
        RatQuadState::RationalPoly
    }
}

/// The conic class of an offset-odd-even rational quadratic.
#[derive(Debug, Clone, Copy, PartialEq, Eq, Structural)]
pub enum RatQuadOoeSubtype {
    Elliptical,
    Parabolic,
    Hyperbolic,
}

impl Default for RatQuadOoeSubtype {
    fn default() -> (r: Self)
        ensures
            r == RatQuadOoeSubtype::Elliptical,
    {
        RatQuadOoeSubtype::Elliptical
    }
}

/// The representation a cubic curve is held in.
#[derive(Debug, Clone, Copy, PartialEq, Eq, Structural)]
pub enum CubicForm {
    FourPoint,
    MidDiff,
}

impl Default for CubicForm {
    fn default() -> (r: Self)
        ensures
            r == CubicForm::FourPoint,
    {
        CubicForm::FourPoint
    }
}

/// How a sample curve is plotted.
#[derive(Debug, Clone, Copy, PartialEq, Eq, Structural)]
pub enum SampleOption {
    Normal,
    XVsT,
}

impl Default for SampleOption {
    fn default() -> (r: Self)
        ensures
            r == SampleOption::Normal,
    {
        SampleOption::Normal
    }
}

/// A curve, held in the representation `T`.
#[derive(Debug, Clone, PartialEq, Eq)]
pub struct Curve<T: Default + PartialEq> {
    pub path: T,
}

impl<T: Default + PartialEq> Default for Curve<T> {
    fn default() -> (r: Self)
        ensures
            call_ensures(T::default, (), r.path),
    {
        let path = T::default();
        proof {
            assert(call_ensures(T::default, (), path));
        }
        Curve { path }
    }
}

/// The configuration of a sample curve plot.  In each drawn feature (the main
/// line, points, control) the presence of the color toggles drawing of the
/// feature.
#[derive(Debug, Clone, Copy)]
pub struct SampleCurveConfig {
    pub main_color: Option<ColorChoice>,
    pub main_line_choice: LineChoice,
    pub approx_num_segments: i32,
    pub points_color: Option<ColorChoice>,
    pub points_choice: PointChoice,
    pub points_num_segments: i32,
    pub sample_options: SampleOption,
    pub control_color: Option<ColorChoice>,
    pub control_point_choices: [PointChoice; 2],
    pub control_line_choice: LineChoice,
    pub control_layer: i32,
    pub points_layer: i32,
    pub main_line_layer: i32,
}

impl Default for SampleCurveConfig {
    fn default() -> (r: Self)
        ensures
            r.main_color == Some(ColorChoice::Blue),
            r.main_line_choice == LineChoice::Ordinary,
            r.approx_num_segments == 0,
            r.points_color == Some(ColorChoice::Green),
            r.points_choice == PointChoice::Dot,
            r.points_num_segments == 12,
            r.sample_options == SampleOption::Normal,
            r.control_color == None::<ColorChoice>,
            r.control_point_choices@ == seq![PointChoice::Circle, PointChoice::Times],
            r.control_line_choice == LineChoice::Light,
            r.control_layer == 10,
            r.points_layer == 20,
            r.main_line_layer == 30,
    {
        Self {
            main_color: Some(ColorChoice::Blue),
            main_line_choice: LineChoice::Ordinary,
            approx_num_segments: 0,
            points_color: Some(ColorChoice::Green),
            points_choice: PointChoice::Dot,
            points_num_segments: 12,
            sample_options: SampleOption::Normal,
            control_color: None,
            control_point_choices: [PointChoice::Circle, PointChoice::Times],
            control_line_choice: LineChoice::Light,
            control_layer: 10,
            points_layer: 20,
            main_line_layer: 30,
        }
    }
}

} // verus!
