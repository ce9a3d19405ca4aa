use algorithm::compare_sort::{
    fast_sort, fast_sort_by, fast_sort_desc, heap_sort, heap_sort_by, heap_sort_desc, insert_sort,
    insert_sort_by, insert_sort_desc, merge_sort, merge_sort_by, merge_sort_desc, SortOrder,
};

/// One hundred inputs of lengths 0, 5, 10, ..., 495 from a fixed xorshift
/// generator.
fn inputs() -> Vec<Vec<i32>> {
    let mut state: u64 = 0x9E37_79B9_7F4A_7C15;
    let mut ret = Vec::new();
    for i in 0..100 {
        let len = i * 5;
        let mut v = Vec::new();
        for _ in 0..len {
            state ^= state << 13;
            state ^= state >> 7;
            state ^= state << 17;
            v.push(state as i32);
        }
        ret.push(v);
    }
    ret
}

fn all_sorts() -> Vec<fn(&mut Vec<i32>)> {
    vec![insert_sort, heap_sort, merge_sort, fast_sort]
}

fn all_sorts_desc() -> Vec<fn(&mut Vec<i32>)> {
    vec![insert_sort_desc, heap_sort_desc, merge_sort_desc, fast_sort_desc]
}

#[test]
fn it_works() {
    let result = 2 + 2;
    assert_eq!(result, 4);
}

#[test]
fn test_insert_sort() {
    for arr in inputs().iter() {
        let mut arr1 = arr.clone();
        let mut arr2 = arr.clone();
        arr1.sort();
        insert_sort(&mut arr2);
        assert_eq!(arr1, arr2);
    }
}

#[test]
fn test_heap_sort() {
    for arr in inputs().iter() {
        let mut arr1 = arr.clone();
        let mut arr2 = arr.clone();
        arr1.sort();
        heap_sort(&mut arr2);
        assert_eq!(arr1, arr2);
    }
}

#[test]
fn test_merge_sort() {
    for arr in inputs().iter() {
        let mut arr1 = arr.clone();
        let mut arr2 = arr.clone();
        arr1.sort();
        merge_sort(&mut arr2);
        assert_eq!(arr1, arr2);
    }
}

#[test]
fn test_fast_sort() {
    for arr in inputs().iter() {
        let mut arr1 = arr.clone();
        let mut arr2 = arr.clone();
        arr1.sort();
        fast_sort(&mut arr2);
        assert_eq!(arr1, arr2);
    }
}

#[test]
fn descending_sorts_match_reversed_std_sort() {
    for arr in inputs().iter() {
        let mut expected = arr.clone();
        expected.sort();
        expected.reverse();
        for sort in all_sorts_desc() {
            let mut got = arr.clone();
            sort(&mut got);
            assert_eq!(got, expected);
        }
    }
}

#[test]
fn by_order_matches_named_variants() {
    let byes: Vec<fn(&mut Vec<i32>, &SortOrder)> =
        vec![insert_sort_by, heap_sort_by, merge_sort_by, fast_sort_by];
    let arr = vec![7, -1, 7, 0, i32::MIN, 3, i32::MAX, -1];
    for by in byes {
        let mut asc = arr.clone();
        by(&mut asc, &SortOrder::Ascending);
        assert_eq!(asc, vec![i32::MIN, -1, -1, 0, 3, 7, 7, i32::MAX]);
        let mut desc = arr.clone();
        by(&mut desc, &SortOrder::Descending);
        assert_eq!(desc, vec![i32::MAX, 7, 7, 3, 0, -1, -1, i32::MIN]);
    }
}

#[test]
fn ascending_is_descending_reversed() {
    let arr = vec![4, 9, -2, 9, 0, 5, -7];
    for (asc_sort, desc_sort) in all_sorts().into_iter().zip(all_sorts_desc()) {
        let mut asc = arr.clone();
        asc_sort(&mut asc);
        let mut desc = arr.clone();
        desc_sort(&mut desc);
        desc.reverse();
        assert_eq!(asc, desc);
    }
}

#[test]
fn sorting_twice_changes_nothing() {
    let arr = vec![3, 1, 2, 3, -5, 0, 1];
    for sort in all_sorts() {
        let mut once = arr.clone();
        sort(&mut once);
        let mut twice = once.clone();
        sort(&mut twice);
        assert_eq!(once, twice);
    }
}

#[test]
fn empty_and_single_are_unchanged() {
    for sort in all_sorts().into_iter().chain(all_sorts_desc()) {
        let mut empty: Vec<i32> = Vec::new();
        sort(&mut empty);
        assert!(empty.is_empty());
        let mut one = vec![42];
        sort(&mut one);
        assert_eq!(one, vec![42]);
    }
}

#[test]
fn all_sorts_agree() {
    for arr in inputs().iter().take(30) {
        let mut results = Vec::new();
        for sort in all_sorts() {
            let mut got = arr.clone();
            sort(&mut got);
            results.push(got);
        }
        for r in results.iter() {
            assert_eq!(r, &results[0]);
        }
    }
}

#[test]
fn insert_sort_five_elements() {
    let mut arr = vec![5, 3, 4, 1, 2];
    insert_sort(&mut arr);
    assert_eq!(arr, vec![1, 2, 3, 4, 5]);
}

#[test]
fn heap_sort_desc_three_elements() {
    let mut arr = vec![1, 2, 3];
    heap_sort_desc(&mut arr);
    assert_eq!(arr, vec![3, 2, 1]);
}

#[test]
fn fast_sort_empty() {
    let mut arr: Vec<i32> = vec![];
    fast_sort(&mut arr);
    assert_eq!(arr, Vec::<i32>::new());
}

#[test]
fn merge_sort_nine_elements() {
    let mut arr = vec![-2, 1, -3, 4, -1, 2, 1, -5, 4];
    merge_sort(&mut arr);
    assert_eq!(arr, vec![-5, -3, -2, -1, 1, 1, 2, 4, 4]);
}

#[test]
fn sorts_handle_equal_and_presorted_inputs() {
    let same = vec![6; 33];
    let rising: Vec<i32> = (0..64).collect();
    let falling: Vec<i32> = (0..64).rev().collect();
    for sort in all_sorts() {
        let mut a = same.clone();
        sort(&mut a);
        assert_eq!(a, same);
        let mut b = rising.clone();
        sort(&mut b);
        assert_eq!(b, rising);
        let mut c = falling.clone();
        sort(&mut c);
        assert_eq!(c, rising);
    }
}
