use crossword::skip_iter::{and, diff, filter_, leaf, short_leaf, SkipIterator};

#[test]
fn test_leaf() {
    let mut it = leaf(&[2, 3, 5, 7, 11]);
    assert_eq!(it.next(), Some(2));
    assert_eq!(it.lower_bound_next(6), Some(7));
    assert_eq!(it.next(), Some(11));
}

#[test]
fn test_and() {
    let and = and(
        leaf(&[2, 3, 5, 7, 11, 13, 17]),
        leaf(&[6, 7, 8, 9, 10, 11, 12]),
    );
    assert_eq!(vec![7, 11], and.collect());
}

#[test]
fn test_diff() {
    assert_eq!(
        vec![2, 3, 5, 13, 17],
        diff(
            leaf(&[2, 3, 5, 7, 11, 13, 17]),
            leaf(&[6, 7, 8, 9, 10, 11, 12]),
        )
        .collect()
    );
    assert!(diff(leaf(&[2, 3, 5]), leaf(&[1, 2, 3, 4, 5, 6]),)
        .next()
        .is_none());
    assert!(diff(leaf(&[2]), diff(leaf(&[1, 2]), leaf(&[])))
        .next()
        .is_none());
}

#[test]
fn test_short_leaf_seeks_by_scanning() {
    let mut it = short_leaf(&[2, 3, 5, 7, 11]);
    assert_eq!(it.lower_bound_next(4), Some(5));
    assert_eq!(it.lower_bound_next(5), Some(7));
    assert_eq!(it.lower_bound_next(12), None);
    assert_eq!(it.next(), None);
}

#[test]
fn test_leaf_seek_past_end_exhausts() {
    let mut it = leaf(&[2, 3, 5]);
    assert_eq!(it.lower_bound_next(6), None);
    assert_eq!(it.next(), None);
    let mut it = leaf(&[]);
    assert_eq!(it.lower_bound_next(0), None);
}

#[test]
fn test_leaf_seek_never_rewinds() {
    let mut it = leaf(&[1, 4, 9, 16, 25]);
    assert_eq!(it.lower_bound_next(9), Some(9));
    assert_eq!(it.lower_bound_next(0), Some(16));
    assert_eq!(it.next(), Some(25));
    assert_eq!(it.next(), None);
}

#[test]
fn test_and_seek() {
    let mut it = and(leaf(&[1, 2, 3, 4, 5, 6, 7, 8]), short_leaf(&[2, 4, 6, 8, 10]));
    assert_eq!(it.lower_bound_next(3), Some(4));
    assert_eq!(it.lower_bound_next(7), Some(8));
    assert_eq!(it.next(), None);
}

#[test]
fn test_diff_seek() {
    let mut it = diff(leaf(&[1, 2, 3, 4, 5, 6, 7, 8]), leaf(&[2, 4, 6, 8, 10]));
    assert_eq!(it.lower_bound_next(2), Some(3));
    assert_eq!(it.lower_bound_next(6), Some(7));
    assert_eq!(it.next(), None);
}

#[test]
fn test_filter() {
    let odd = filter_(leaf(&[1, 2, 3, 4, 5, 6, 7]), |x: u32| x % 2 == 1);
    assert_eq!(vec![1, 3, 5, 7], odd.collect());
    let mut it = filter_(leaf(&[1, 2, 3, 4, 5, 6, 7]), |x: u32| x % 3 == 0);
    assert_eq!(it.lower_bound_next(4), Some(6));
    assert_eq!(it.next(), None);
}

#[test]
fn test_nested_operators() {
    let a = [1, 2, 3, 5, 8, 13, 21];
    let b = [2, 3, 5, 7, 11, 13];
    let c = [3, 13];
    let it = diff(and(leaf(&a), leaf(&b)), filter_(leaf(&c), |x: u32| x != 13));
    assert_eq!(vec![2, 5, 13], it.collect());
}
