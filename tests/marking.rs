use sieve_vec_bool::SieveVecBool;

fn alive(len: usize) -> SieveVecBool {
    SieveVecBool::from(vec![true; len])
}

fn false_indices(v: &[bool]) -> Vec<usize> {
    let mut out = Vec::new();
    for (i, b) in v.iter().enumerate() {
        if !*b {
            out.push(i);
        }
    }
    out
}

#[test]
fn new_is_empty() {
    let a = SieveVecBool::new();
    assert_eq!(a.len(), 0);
    assert_eq!(a.into_inner(), Vec::<bool>::new());
    let d = SieveVecBool::default();
    assert_eq!(d.into_inner(), Vec::<bool>::new());
}

#[test]
fn from_keeps_the_slots() {
    let a = SieveVecBool::from(vec![true, false, true]);
    assert_eq!(a.len(), 3);
    assert_eq!(a.into_inner(), vec![true, false, true]);
}

#[test]
fn clone_keeps_the_slots() {
    let mut a = alive(4);
    a.set_false_unchecked(1);
    let b = a.clone();
    assert_eq!(b.into_inner(), vec![true, false, true, true]);
}

#[test]
fn set_false_marks_one_slot() {
    let mut a = alive(5);
    a.set_false_unchecked(3);
    assert_eq!(a.into_inner(), vec![true, true, true, false, true]);
}

#[test]
fn set_false_twice_keeps_false() {
    let mut a = alive(3);
    a.set_false_unchecked(0);
    a.set_false_unchecked(0);
    assert_eq!(a.into_inner(), vec![false, true, true]);
}

#[test]
fn strided_range_sequential() {
    let mut a = alive(12);
    a.set_step_range_to_false(1, 10, 3);
    assert_eq!(false_indices(&a.into_inner()), vec![1, 4, 7]);
}

#[test]
fn strided_range_parallel() {
    let mut a = alive(12);
    a.set_step_range_to_false_par(1, 10, 3);
    assert_eq!(false_indices(&a.into_inner()), vec![1, 4, 7]);
}

#[test]
fn strided_range_stop_past_length() {
    let mut a = alive(10);
    a.set_step_range_to_false(1, 11, 5);
    assert_eq!(false_indices(&a.into_inner()), vec![1, 6]);
    let mut b = alive(10);
    b.set_step_range_to_false_par(1, 11, 5);
    assert_eq!(false_indices(&b.into_inner()), vec![1, 6]);
}

#[test]
fn strided_range_empty_when_start_not_below_stop() {
    let mut a = alive(6);
    a.set_step_range_to_false(4, 4, 1);
    a.set_step_range_to_false(5, 2, 1);
    a.set_step_range_to_false_par(4, 4, 1);
    a.set_step_range_to_false_par(100, 2, 7);
    assert_eq!(a.into_inner(), vec![true; 6]);
}

#[test]
fn strided_range_step_larger_than_range() {
    let mut a = alive(8);
    a.set_step_range_to_false(2, 8, 100);
    assert_eq!(false_indices(&a.into_inner()), vec![2]);
    let mut b = alive(8);
    b.set_step_range_to_false_par(2, 8, 100);
    assert_eq!(false_indices(&b.into_inner()), vec![2]);
}

#[test]
fn strided_range_near_usize_max_does_not_overflow() {
    let mut a = alive(4);
    a.set_step_range_to_false(3, usize::MAX, usize::MAX - 1);
    assert_eq!(false_indices(&a.into_inner()), vec![3]);
}

#[test]
fn multiples_sequential() {
    let mut a = alive(20);
    a.set_multiples_to_false(3);
    assert_eq!(false_indices(&a.into_inner()), vec![3, 6, 9, 12, 15, 18]);
}

#[test]
fn multiples_parallel() {
    let mut a = alive(20);
    a.set_multiples_to_false_par(3);
    assert_eq!(false_indices(&a.into_inner()), vec![3, 6, 9, 12, 15, 18]);
}

#[test]
fn multiples_of_one_mark_all_but_zero() {
    let mut a = alive(5);
    a.set_multiples_to_false_par(1);
    assert_eq!(a.into_inner(), vec![true, false, false, false, false]);
}

#[test]
fn sequential_and_parallel_agree() {
    let cases: [(usize, usize, usize); 6] =
        [(0, 50, 1), (0, 50, 7), (3, 47, 4), (10, 11, 1), (49, 50, 2), (5, 60, 11)];
    for &(start, stop, step) in cases.iter() {
        let mut a = alive(50);
        let mut b = alive(50);
        a.set_step_range_to_false(start, stop, step);
        b.set_step_range_to_false_par(start, stop, step);
        assert_eq!(a.into_inner(), b.into_inner());
    }
    for n in 1..60usize {
        let mut a = alive(50);
        let mut b = alive(50);
        a.set_multiples_to_false(n);
        b.set_multiples_to_false_par(n);
        assert_eq!(a.into_inner(), b.into_inner());
    }
}

#[test]
fn marking_twice_is_marking_once() {
    let mut once = alive(40);
    once.set_multiples_to_false(4);
    let mut twice = alive(40);
    twice.set_multiples_to_false(4);
    twice.set_multiples_to_false_par(4);
    assert_eq!(once.into_inner(), twice.into_inner());
}

#[test]
fn overlapping_ranges_mark_their_union() {
    let mut a = alive(30);
    a.set_step_range_to_false(0, 30, 6);
    a.set_step_range_to_false(0, 30, 3);
    let mut b = alive(30);
    b.set_step_range_to_false(0, 30, 3);
    assert_eq!(a.into_inner(), b.into_inner());
}

#[test]
fn batch_of_two_three_five() {
    let mut a = alive(30);
    a.set_multiples_of_slice_to_false_par(&[2, 3, 5]);
    let v = a.into_inner();
    assert_eq!(
        false_indices(&v),
        vec![2, 3, 4, 5, 6, 8, 9, 10, 12, 14, 15, 16, 18, 20, 21, 22, 24, 25, 26, 27, 28]
    );
    let alive_left: Vec<usize> = (0..30).filter(|&i| v[i]).collect();
    assert_eq!(alive_left, vec![0, 1, 7, 11, 13, 17, 19, 23, 29]);
}

#[test]
fn batch_order_does_not_matter() {
    let mut a = alive(30);
    a.set_multiples_of_slice_to_false_par(&[5, 2, 3, 2]);
    let mut b = alive(30);
    b.set_multiples_of_slice_to_false_par(&[2, 3, 5]);
    assert_eq!(a.into_inner(), b.into_inner());
}

#[test]
fn batch_with_no_values_changes_nothing() {
    let mut a = alive(7);
    a.set_multiples_of_slice_to_false_par(&[]);
    assert_eq!(a.into_inner(), vec![true; 7]);
}

#[test]
fn multiples_of_length_change_nothing() {
    let mut a = alive(10);
    a.set_multiples_to_false(10);
    a.set_multiples_to_false_par(10);
    assert_eq!(a.into_inner(), vec![true; 10]);
}

#[test]
fn multiples_past_length_change_nothing() {
    let mut a = alive(10);
    a.set_multiples_to_false(11);
    a.set_multiples_to_false_par(1000);
    assert_eq!(a.into_inner(), vec![true; 10]);
}

#[test]
fn empty_array_operations_are_no_ops() {
    let mut a = alive(0);
    a.set_multiples_to_false(1);
    a.set_multiples_to_false_par(3);
    a.set_step_range_to_false(0, 0, 1);
    a.set_step_range_to_false_par(0, 0, 2);
    a.set_multiples_of_slice_to_false_par(&[1, 2, 3]);
    assert_eq!(a.into_inner(), Vec::<bool>::new());
}

#[test]
fn single_slot_array() {
    let mut a = alive(1);
    a.set_multiples_to_false(1);
    a.set_multiples_to_false_par(1);
    a.set_multiples_of_slice_to_false_par(&[1, 2]);
    assert_eq!(a.len(), 1);
    a.set_step_range_to_false_par(0, 1, 1);
    assert_eq!(a.into_inner(), vec![false]);
}

#[test]
fn false_slots_stay_false() {
    let mut a = SieveVecBool::from(vec![true, false, true, false, true, true, false]);
    a.set_multiples_to_false_par(5);
    a.set_step_range_to_false(0, 3, 2);
    a.set_multiples_of_slice_to_false_par(&[4]);
    let v = a.into_inner();
    for i in [1usize, 3, 6] {
        assert!(!v[i]);
    }
    assert_eq!(v, vec![false, false, false, false, false, false, false]);
}

#[test]
fn many_overlapping_marks_match_any_sequential_order() {
    let values: Vec<usize> = (2..40).collect();
    let mut batch = alive(2000);
    batch.set_multiples_of_slice_to_false_par(&values);
    let mut forward = alive(2000);
    for &n in values.iter() {
        forward.set_multiples_to_false(n);
    }
    let mut backward = alive(2000);
    for &n in values.iter().rev() {
        backward.set_multiples_to_false_par(n);
    }
    let b = batch.into_inner();
    assert_eq!(b, forward.into_inner());
    assert_eq!(b, backward.into_inner());
}

#[test]
fn sieve_of_primes_below_one_hundred() {
    let mut a = alive(100);
    for p in [2usize, 3, 5, 7] {
        a.set_step_range_to_false_par(2 * p, 100, p);
    }
    a.set_step_range_to_false(0, 2, 1);
    let v = a.into_inner();
    let primes: Vec<usize> = (0..100).filter(|&i| v[i]).collect();
    assert_eq!(
        primes,
        vec![
            2, 3, 5, 7, 11, 13, 17, 19, 23, 29, 31, 37, 41, 43, 47, 53, 59, 61, 67, 71, 73, 79,
            83, 89, 97
        ]
    );
}

#[test]
fn batch_across_many_chunks_matches_sequential() {
    let len: usize = 100_003;
    let values: Vec<usize> = vec![2, 3, 7, 97, 32_767, 32_768, 40_000, 99_999, 100_003, 250_000];
    let mut batch = alive(len);
    batch.set_multiples_of_slice_to_false_par(&values);
    let mut one_by_one = alive(len);
    for &n in values.iter() {
        one_by_one.set_multiples_to_false(n);
    }
    let b = batch.into_inner();
    assert_eq!(b, one_by_one.into_inner());
    assert!(b[1] && b[11] && b[100_001]);
    assert!(!b[32_768] && !b[65_536] && !b[99_999] && !b[40_000]);
}
