//! Tests of the merge-step traversal.

use zebraix::dominance::conquer_iterator::{MergeStep, MinusPlusShift};

fn all_steps(size: usize) -> Vec<MergeStep> {
   let mut iter = MinusPlusShift::new(size);
   let mut steps = Vec::new();
   while let Some(step) = iter.next() {
      steps.push(step);
   }
   steps
}

fn bounds(steps: &[MergeStep]) -> Vec<(usize, usize, usize, u32, u32)> {
   steps.iter().map(|s| (s.lower, s.middle, s.upper, s.shifted_level, s.singles_to_add)).collect()
}

#[test]
fn traversal_patterns() {
   let stop_sort_size: usize = 10;

   for sort_size in 2..stop_sort_size {
      let mut check_vector = vec![1; sort_size];
      let mut final_shifted_level = 0;
      let mut iter = MinusPlusShift::new(sort_size);
      while let Some(merge_step) = iter.next() {
         assert!(merge_step.upper <= sort_size);
         assert_eq!(check_vector[merge_step.lower], merge_step.middle - merge_step.lower);
         for item in check_vector.iter().take(merge_step.middle).skip(merge_step.lower + 1) {
            assert_eq!(*item, 0);
         }
         assert_eq!(check_vector[merge_step.middle], merge_step.upper - merge_step.middle);
         for item in check_vector.iter().take(merge_step.upper).skip(merge_step.middle + 1) {
            assert_eq!(*item, 0);
         }

         check_vector[merge_step.lower] = merge_step.upper - merge_step.lower;
         check_vector[merge_step.middle] = 0;
         final_shifted_level = merge_step.shifted_level;
      }
      assert_eq!(check_vector[0], sort_size);
      for item in check_vector.iter().take(sort_size).skip(1) {
         assert_eq!(*item, 0);
      }
      assert!(1 << final_shifted_level < sort_size);
      assert!(2 << final_shifted_level >= sort_size);
   }
}

#[test]
fn merge_order_two_and_three() {
   assert_eq!(bounds(&all_steps(2)), vec![(0, 1, 2, 0, 2)]);
   assert_eq!(bounds(&all_steps(3)), vec![(0, 1, 2, 0, 2), (0, 2, 3, 1, 1)]);
}

#[test]
fn merge_order_five() {
   assert_eq!(
      bounds(&all_steps(5)),
      vec![(0, 1, 2, 0, 2), (2, 3, 4, 0, 2), (0, 2, 4, 1, 0), (0, 4, 5, 2, 1)]
   );
}

#[test]
fn merge_order_eight_is_a_full_tree() {
   assert_eq!(
      bounds(&all_steps(8)),
      vec![
         (0, 1, 2, 0, 2),
         (2, 3, 4, 0, 2),
         (0, 2, 4, 1, 0),
         (4, 5, 6, 0, 2),
         (6, 7, 8, 0, 2),
         (4, 6, 8, 1, 0),
         (0, 4, 8, 2, 0),
      ]
   );
}

#[test]
fn merge_order_thirteen() {
   assert_eq!(
      bounds(&all_steps(13)),
      vec![
         (0, 1, 2, 0, 2),
         (2, 3, 4, 0, 2),
         (0, 2, 4, 1, 0),
         (4, 5, 6, 0, 2),
         (6, 7, 8, 0, 2),
         (4, 6, 8, 1, 0),
         (0, 4, 8, 2, 0),
         (8, 9, 10, 0, 2),
         (10, 11, 12, 0, 2),
         (8, 10, 12, 1, 0),
         (8, 12, 13, 2, 1),
         (0, 8, 13, 3, 0),
      ]
   );
}

#[test]
fn step_count_is_one_less_than_size() {
   for size in 2..200 {
      assert_eq!(all_steps(size).len(), size - 1);
   }
}

#[test]
fn finished_iterator_stays_finished() {
   let mut iter = MinusPlusShift::new(4);
   while iter.next().is_some() {}
   assert!(iter.next().is_none());
   assert!(iter.next().is_none());
}

#[test]
fn large_sizes_end_with_the_whole_range() {
   for size in [1000usize, 1023, 1024, 1025, 4097] {
      let steps = all_steps(size);
      let last = steps.last().unwrap();
      assert_eq!((last.lower, last.upper), (0, size));
      assert!(1usize << last.shifted_level < size);
      assert!(2usize << last.shifted_level >= size);
   }
}

#[test]
fn collected_steps_match_the_iteration() {
   for size in 2..40usize {
      let mut iter = MinusPlusShift::new(size);
      let collected = iter.collect_steps();
      assert_eq!(collected.len(), size - 1);
      assert_eq!(bounds(&collected), bounds(&all_steps(size)));
      assert!(iter.next().is_none());
   }
}

#[test]
fn collected_singles_follow_the_highest_upper_end() {
   for size in 2..40usize {
      let mut highest = 0;
      for step in MinusPlusShift::new(size).collect_steps() {
         match step.singles_to_add {
            2 => assert!(highest <= step.lower),
            1 => assert!(step.middle == highest && step.upper == step.middle + 1),
            _ => assert!(step.upper <= highest),
         }
         highest = highest.max(step.upper);
      }
      assert_eq!(highest, size);
   }
}

#[test]
fn collected_steps_after_some_iteration() {
   let mut iter = MinusPlusShift::new(5);
   let first = iter.next().unwrap();
   assert_eq!((first.lower, first.middle, first.upper), (0, 1, 2));
   let rest = iter.collect_steps();
   assert_eq!(bounds(&rest), vec![(2, 3, 4, 0, 2), (0, 2, 4, 1, 0), (0, 4, 5, 2, 1)]);
}

/// The same traversal written with a signed-digit counter: `negation` marks
/// the binary digits of the frontier that are subtracted, and the mid-point of
/// a step is the signed sum of the digits at and above `shifted`.
struct SignedDigitTraversal {
   size: usize,
   shifted: usize,
   negation: usize,
   shifted_level: u32,
   high_sort_mark: usize,
}

impl SignedDigitTraversal {
   fn new(size: usize) -> Self {
      let top_level = usize::MAX.count_ones() - 1;
      Self { size, shifted: 1 << top_level, negation: 1 << top_level, shifted_level: top_level, high_sort_mark: 0 }
   }

   fn step(&mut self) -> Option<(usize, usize, usize, u32, u32)> {
      if self.shifted >= self.size.div_ceil(2) && self.shifted != self.negation {
         return None;
      }
      if self.negation & self.shifted != 0 {
         self.negation ^= self.shifted;
         self.negation ^= self.shifted - 1;
         self.shifted = 1;
         self.shifted_level = 0;
      } else {
         self.shifted <<= 1;
         self.shifted_level += 1;
      }
      let mask = (!self.shifted).wrapping_add(1);
      let mut mid = (mask & !self.negation) - (mask & self.negation);
      while mid >= self.size {
         self.shifted <<= 1;
         self.shifted_level += 1;
         let mask = (!self.shifted).wrapping_add(1);
         mid = (mask & !self.negation) - (mask & self.negation);
      }
      let lower = mid - self.shifted;
      let upper = std::cmp::min(mid + self.shifted, self.size);
      let singles = if mid > self.high_sort_mark {
         2
      } else if upper > self.high_sort_mark {
         1
      } else {
         0
      };
      self.high_sort_mark = upper;
      Some((lower, mid, upper, self.shifted_level, singles))
   }
}

#[test]
fn steps_match_signed_digit_counting() {
   for size in 2..1200usize {
      let mut counter = SignedDigitTraversal::new(size);
      let mut expected = Vec::new();
      while let Some(step) = counter.step() {
         expected.push(step);
      }
      assert_eq!(bounds(&all_steps(size)), expected, "size {size}");
   }
}

#[test]
fn last_collected_step_spans_all_items() {
   for size in 2..200usize {
      let steps = MinusPlusShift::new(size).collect_steps();
      let last = steps.last().unwrap();
      let half = 1usize << last.shifted_level;
      assert_eq!((last.lower, last.middle, last.upper), (0, half, size));
      assert!(half < size && size <= 2 * half);
      for step in &steps {
         assert!(step.singles_to_add <= 2);
         if step.singles_to_add == 2 {
            assert_eq!((step.middle, step.upper), (step.lower + 1, step.lower + 2));
         }
      }
   }
}
