use algorithm::divide_and_conquer;
use algorithm::dynamic_programming;
use algorithm::max_subarray::{max_subarray_with_divide_and_conquer, max_subarray_with_dp};

fn sum(s: &[i32]) -> i64 {
    s.iter().map(|&x| x as i64).sum()
}

#[test]
fn test_max_subarray() {
    let arr = vec![13, -3, -25, 20, -3, -16, -23, 18, 20, -7, 12, -5, -22, 15, -4, 7];
    let slice = max_subarray_with_divide_and_conquer(&arr);

    assert_eq!(slice, &[18, 20, -7, 12][..]);

    let arr: Vec<i32> = Vec::new();
    let slice = max_subarray_with_divide_and_conquer(&arr);

    assert_eq!(slice, &[][..]);
    assert_eq!(slice, max_subarray_with_dp(&arr));

    let arr = vec![1, 2, 3, 4, 5, 6, 7, 8, 9, 10];
    let slice = max_subarray_with_divide_and_conquer(&arr);

    assert_eq!(slice, &[1, 2, 3, 4, 5, 6, 7, 8, 9, 10][..]);
    assert_eq!(slice, max_subarray_with_dp(&arr));

    let arr = vec![-2, 1, -3, 4, -1, 2, 1, -5, 4];
    let slice = max_subarray_with_divide_and_conquer(&arr);

    assert_eq!(slice, &[4, -1, 2, 1][..]);
    assert_eq!(slice, max_subarray_with_dp(&arr));

    let arr = vec![1];
    let slice = max_subarray_with_divide_and_conquer(&arr);

    assert_eq!(slice, &[1][..]);
    assert_eq!(slice, max_subarray_with_dp(&arr));
}

#[test]
fn both_solvers_on_the_textbook_input() {
    let arr = vec![13, -3, -25, 20, -3, -16, -23, 18, 20, -7, 12, -5, -22, 15, -4, 7];
    assert_eq!(divide_and_conquer::max_subarray(&arr), &[18, 20, -7, 12][..]);
    assert_eq!(dynamic_programming::max_subarray(&arr), &[18, 20, -7, 12][..]);
    assert_eq!(sum(dynamic_programming::max_subarray(&arr)), 43);
}

#[test]
fn all_negative_picks_the_largest_element() {
    let arr = vec![-8, -3, -6, -2, -5, -4];
    assert_eq!(max_subarray_with_divide_and_conquer(&arr), &[-2][..]);
    assert_eq!(max_subarray_with_dp(&arr), &[-2][..]);
}

#[test]
fn sums_beyond_i32_do_not_overflow() {
    let arr = vec![i32::MAX, i32::MAX, i32::MIN, i32::MAX];
    let a = max_subarray_with_divide_and_conquer(&arr);
    let b = max_subarray_with_dp(&arr);
    assert_eq!(a, &[i32::MAX, i32::MAX][..]);
    assert_eq!(sum(a), 2 * (i32::MAX as i64));
    assert_eq!(sum(a), sum(b));
    let arr = vec![i32::MIN, i32::MIN];
    assert_eq!(max_subarray_with_divide_and_conquer(&arr), &[i32::MIN][..]);
    assert_eq!(max_subarray_with_dp(&arr), &[i32::MIN][..]);
}

#[test]
fn solvers_agree_on_sum_with_ties() {
    let inputs = vec![
        vec![0, 0, 0, 0],
        vec![2, -2, 2, -2, 2],
        vec![1, -1, 1],
        vec![5, -10, 5],
        vec![3, -1, -1, 3, -7, 4],
    ];
    for arr in inputs {
        let a = max_subarray_with_divide_and_conquer(&arr);
        let b = max_subarray_with_dp(&arr);
        assert!(!a.is_empty() && !b.is_empty());
        assert_eq!(sum(a), sum(b));
        let mut best = i64::MIN;
        for i in 0..arr.len() {
            for j in i + 1..=arr.len() {
                best = best.max(sum(&arr[i..j]));
            }
        }
        assert_eq!(sum(a), best);
    }
}

#[test]
fn single_element_is_returned_whole() {
    let arr = vec![-9];
    assert_eq!(max_subarray_with_divide_and_conquer(&arr), &[-9][..]);
    assert_eq!(max_subarray_with_dp(&arr), &[-9][..]);
}
