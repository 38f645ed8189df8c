//! Tests of the rendering order of drawables.

use zebraix::draw_order::draw_order;

#[test]
fn draw_order_sorts_by_layer_and_keeps_ties_in_order() {
   assert_eq!(draw_order(&vec![2, 0, 1, 0, 2]), vec![1, 3, 2, 0, 4]);
}

#[test]
fn draw_order_of_one_layer_is_the_given_order() {
   assert_eq!(draw_order(&vec![7, 7, 7]), vec![0, 1, 2]);
}

#[test]
fn draw_order_of_nothing_is_empty() {
   assert_eq!(draw_order(&Vec::new()), Vec::<usize>::new());
}

#[test]
fn draw_order_with_negative_and_extreme_layers() {
   assert_eq!(draw_order(&vec![i32::MAX, -3, i32::MIN, -3]), vec![2, 1, 3, 0]);
}

#[test]
fn draw_order_matches_a_stable_sort() {
   let layers: Vec<i32> = (0..50).map(|i: i32| (i * 7919) % 5 - 2).collect();
   let mut expected: Vec<usize> = (0..layers.len()).collect();
   expected.sort_by_key(|&i| layers[i]);
   assert_eq!(draw_order(&layers), expected);
}
