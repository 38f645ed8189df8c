//! Tests of the filter applied to rendered SVG lines.

use zebraix::golden_text::filter_svg_line;

#[test]
fn surface_group_line_is_replaced() {
   let out = filter_svg_line(br#"<g id="surface42">"#);
   assert_eq!(out, br#"<g id="surfaceXXXX">"#.to_vec());
   let out = filter_svg_line(br#"<g id="surface1" clip-path="url(#clip1)">"#);
   assert_eq!(out, br#"<g id="surfaceXXXX">"#.to_vec());
}

#[test]
fn bare_prefix_is_replaced() {
   let out = filter_svg_line(br#"<g id="surface"#);
   assert_eq!(out, br#"<g id="surfaceXXXX">"#.to_vec());
}

#[test]
fn other_lines_are_kept() {
   let lines: [&[u8]; 5] = [
      b"",
      br#"<g id="surfac"#,
      br#" <g id="surface1">"#,
      br#"<path fill="none" d="M 190 120 "/>"#,
      br#"<g id="glyph-0-1">"#,
   ];
   for line in lines {
      assert_eq!(filter_svg_line(line), line.to_vec());
   }
}

use zebraix::golden_text::trim_decimal;

#[test]
fn trailing_zeros_and_point_are_dropped() {
   assert_eq!(trim_decimal(b"2.500"), b"2.5".to_vec());
   assert_eq!(trim_decimal(b"3.000"), b"3".to_vec());
   assert_eq!(trim_decimal(b"-0.125000"), b"-0.125".to_vec());
   assert_eq!(trim_decimal(b"12.0"), b"12".to_vec());
}

#[test]
fn other_decimals_are_kept() {
   assert_eq!(trim_decimal(b"2.5"), b"2.5".to_vec());
   assert_eq!(trim_decimal(b"1e-7"), b"1e-7".to_vec());
   assert_eq!(trim_decimal(b""), b"".to_vec());
}

#[test]
fn whole_numbers_lose_trailing_zeros_too() {
   // Only meant for decimals with a point: a whole number's zeros go as well.
   assert_eq!(trim_decimal(b"100"), b"1".to_vec());
   assert_eq!(trim_decimal(b"0.0"), b"0".to_vec());
   assert_eq!(trim_decimal(b"0.000"), b"0".to_vec());
}
