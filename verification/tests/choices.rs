//! Tests of the default values of the drawing and layout choices.

use zebraix::base::is_default;
use zebraix::choices::{
   ColorChoice, LineChoice, LineClosureChoice, PathChoices, PointChoice, Strokeable,
   TextAnchorChoice, TextAnchorHorizontal, TextAnchorVertical, TextOffsetChoice, TextSizeChoice,
};
use zebraix::curves::{Curve, CubicForm, RatQuadOoeSubtype, RatQuadState, SampleCurveConfig, SampleOption};
use zebraix::layout::{AxesStyle, AxisNumbering, BackgroundBox, SizingScheme};

#[test]
fn drawing_choice_defaults() {
   assert_eq!(LineChoice::default(), LineChoice::Ordinary);
   assert_eq!(PointChoice::default(), PointChoice::Circle);
   assert_eq!(TextAnchorHorizontal::default(), TextAnchorHorizontal::Center);
   assert_eq!(TextAnchorVertical::default(), TextAnchorVertical::Middle);
   assert_eq!(TextSizeChoice::default(), TextSizeChoice::Normal);
   assert_eq!(TextOffsetChoice::default(), TextOffsetChoice::NoOffset);
   assert_eq!(TextAnchorChoice::default(), TextAnchorChoice::Centered);
   assert_eq!(LineClosureChoice::default(), LineClosureChoice::Open);
   assert_eq!(ColorChoice::default(), ColorChoice::DefaultBlack);
   assert_eq!(
      PathChoices::default(),
      PathChoices { line_choice: LineChoice::Ordinary, color: ColorChoice::DefaultBlack }
   );
   assert_ne!(
      TextAnchorChoice::ThreeByThree(TextAnchorHorizontal::Left, TextAnchorVertical::Top),
      TextAnchorChoice::default()
   );
}

#[test]
fn layout_choice_defaults() {
   assert!(matches!(SizingScheme::default(), SizingScheme::SquareShrink));
   assert_eq!(AxesStyle::default(), AxesStyle::NoAxes);
   assert_eq!(AxisNumbering::default(), AxisNumbering::At);
   assert!(matches!(BackgroundBox::default(), BackgroundBox::Nothing));
}

#[test]
fn curve_choice_defaults() {
   assert_eq!(RatQuadState::default(), RatQuadState::RationalPoly);
   assert_eq!(RatQuadOoeSubtype::default(), RatQuadOoeSubtype::Elliptical);
   assert_eq!(CubicForm::default(), CubicForm::FourPoint);
   assert_eq!(SampleOption::default(), SampleOption::Normal);
   let curve: Curve<Vec<i32>> = Curve::default();
   assert!(curve.path.is_empty());
   let stroke: Strokeable<Vec<i32>> = Strokeable::default();
   assert!(stroke.path.is_empty());
   assert!(is_default(&stroke.path_choices));
}

#[test]
fn sample_curve_config_default() {
   let config = SampleCurveConfig::default();
   assert_eq!(config.main_color, Some(ColorChoice::Blue));
   assert_eq!(config.main_line_choice, LineChoice::Ordinary);
   assert_eq!(config.approx_num_segments, 0);
   assert_eq!(config.points_color, Some(ColorChoice::Green));
   assert_eq!(config.points_choice, PointChoice::Dot);
   assert_eq!(config.points_num_segments, 12);
   assert_eq!(config.sample_options, SampleOption::Normal);
   assert_eq!(config.control_color, None);
   assert_eq!(config.control_point_choices, [PointChoice::Circle, PointChoice::Times]);
   assert_eq!(config.control_line_choice, LineChoice::Light);
   assert_eq!((config.control_layer, config.points_layer, config.main_line_layer), (10, 20, 30));
}

#[test]
fn segment_choices_default_starts_an_open_path() {
   let choices = zebraix::choices::SegmentChoices::default();
   assert_eq!(choices.continuation, zebraix::choices::ContinuationChoice::Starts);
   assert_eq!(choices.closure, zebraix::choices::LineClosureChoice::Open);
   assert_ne!(choices.continuation, zebraix::choices::ContinuationChoice::Continues);
}
