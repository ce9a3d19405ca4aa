use algorithm::compare_sort::{fast_sort_by, heap_sort_by, insert_sort_by, merge_sort_by, ByKey, SortOrder};

fn tagged() -> Vec<(i32, i32)> {
    let keys = [3, 1, 2, 3, 1, 2, 3, 1, 0, 2, 1, 3, 0];
    keys.iter().enumerate().map(|(i, &k)| (k, i as i32)).collect()
}

#[test]
fn insertion_sort_keeps_ties_in_order() {
    let mut v = tagged();
    let mut expected = tagged();
    expected.sort_by_key(|p| p.0);
    insert_sort_by(&mut v, &ByKey(SortOrder::Ascending));
    assert_eq!(v, expected);
}

#[test]
fn merge_sort_keeps_ties_in_order() {
    let mut v = tagged();
    let mut expected = tagged();
    expected.sort_by_key(|p| p.0);
    merge_sort_by(&mut v, &ByKey(SortOrder::Ascending));
    assert_eq!(v, expected);
}

#[test]
fn unstable_sorts_still_order_by_key() {
    for sort in [heap_sort_by::<(i32, i32), ByKey>, fast_sort_by::<(i32, i32), ByKey>] {
        let mut v = tagged();
        sort(&mut v, &ByKey(SortOrder::Ascending));
        assert!(v.windows(2).all(|w| w[0].0 <= w[1].0));
        let mut got = v.clone();
        got.sort();
        let mut all = tagged();
        all.sort();
        assert_eq!(got, all);
    }
}

#[test]
fn descending_by_key_keeps_ties_in_order() {
    let mut expected = tagged();
    expected.sort_by_key(|p| std::cmp::Reverse(p.0));
    let mut a = tagged();
    insert_sort_by(&mut a, &ByKey(SortOrder::Descending));
    assert_eq!(a, expected);
    let mut b = tagged();
    merge_sort_by(&mut b, &ByKey(SortOrder::Descending));
    assert_eq!(b, expected);
}
