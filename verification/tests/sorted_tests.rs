use graph_iso::sorted::do_intersect_sorted;
use graph_iso::sorted::intersect_sorted;
use graph_iso::sorted::union_into_sorted;

#[test]
fn test_intersect_sorted() {
    let a = vec![0, 1, 2, 3, 4];
    let b = vec![2, 3, 4, 5, 6];

    assert_eq!(vec![2, 3, 4], intersect_sorted(&a, &b));

    let a = vec![0, 1, 2, 3, 4];
    let b = vec![0, 1, 2, 3, 4];

    assert_eq!(vec![0, 1, 2, 3, 4], intersect_sorted(&a, &b));

    let a = vec![0];
    let b = vec![4];

    let expected: Vec<usize> = vec![];
    assert_eq!(expected, intersect_sorted(&a, &b))
}

#[test]
fn test_do_intersect_sorted() {
    let a = vec![0, 1, 2, 3, 4];
    let b = vec![2, 3, 4, 5, 6];

    assert!(do_intersect_sorted(&a, &b));

    let a = vec![0, 1, 2, 3, 4];
    let b = vec![0, 1, 2, 3, 4];

    assert!(do_intersect_sorted(&a, &b));

    let a = vec![0];
    let b = vec![4];

    assert!(!do_intersect_sorted(&a, &b));
}

#[test]
fn test_union_into_sorted() {
    let mut a = vec![0, 1, 2, 3, 4];
    let b = vec![2, 3, 4, 5, 6];
    union_into_sorted(&mut a, &b);
    assert_eq!(vec![0, 1, 2, 3, 4, 5, 6], a);

    let mut a = vec![2, 3, 4, 5, 6];
    let b = vec![0, 1, 2, 3, 4];
    union_into_sorted(&mut a, &b);
    assert_eq!(vec![0, 1, 2, 3, 4, 5, 6], a);

    let mut a = vec![0, 1, 2, 3, 4];
    let b = vec![0, 1, 2, 3, 4];

    union_into_sorted(&mut a, &b);
    assert_eq!(vec![0, 1, 2, 3, 4], a);

    let mut a = vec![0];
    let b = vec![4];

    union_into_sorted(&mut a, &b);
    assert_eq!(vec![0, 4], a);
}

#[test]
fn intersect_with_duplicates_is_duplicate_free() {
    // inputs may repeat values; the intersection never does
    let a = vec![1, 2, 2, 3, 3, 3];
    let b = vec![2, 2, 3, 4];
    assert_eq!(vec![2, 3], intersect_sorted(&a, &b));
}

#[test]
fn intersect_absorbs_its_own_result() {
    // intersecting `a` with `intersect(a, b)` gives `intersect(a, b)` again
    let a = vec![1, 4, 6, 9];
    let b = vec![4, 5, 9, 12];
    let ab = intersect_sorted(&a, &b);
    assert_eq!(ab, intersect_sorted(&a, &ab));
}

#[test]
fn intersects_iff_intersection_nonempty() {
    let cases: [(Vec<usize>, Vec<usize>); 3] = [
        (vec![1, 3, 5], vec![2, 4, 6]),
        (vec![1, 3, 5], vec![5, 7]),
        (vec![], vec![1]),
    ];
    for (a, b) in cases {
        assert_eq!(
            do_intersect_sorted(&a, &b),
            !intersect_sorted(&a, &b).is_empty()
        );
    }
}
