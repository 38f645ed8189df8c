//! Tests of the small shared helpers.

use zebraix::base::is_default;

#[test]
fn it_works() {
   assert_eq!(2 + 2, 4);
}

#[test]
fn is_default_on_vectors_and_integers() {
   let empty: Vec<usize> = Vec::new();
   assert!(is_default(&empty));
   assert!(!is_default(&vec![1usize]));
   assert!(is_default(&0i32));
   assert!(!is_default(&-3i32));
   assert!(is_default(&false));
}
