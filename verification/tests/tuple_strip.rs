use octree::util::tuple_strip::{tuple_strip, IterUtil};

#[test]
fn test_nums() {
    let num_runs = 10;
    let mut iter = (0..=num_runs).collect::<Vec<_>>().tuple_strip();
    for i in 0..num_runs {
        assert_eq!(iter.next(), Some((i, i + 1)));
    }
}

#[test]
fn test_small_iters() {
    let mut iter = (0..=1).collect::<Vec<_>>().tuple_strip();
    assert_eq!(iter.next(), Some((0, 1)));
    assert_eq!(iter.next(), None);
    let mut iter = (0..1).collect::<Vec<_>>().tuple_strip();
    assert_eq!(iter.next(), None);
    let mut iter = (0..=2).collect::<Vec<_>>().tuple_strip();
    assert_eq!(iter.next(), Some((0, 1)));
    assert_eq!(iter.next(), Some((1, 2)));
    assert_eq!(iter.next(), None);
}

#[test]
fn strip_counts_what_is_left() {
    let mut iter = tuple_strip(vec![4u8, 5, 6, 7]);
    assert_eq!(iter.size_hint(), (3, Some(3)));
    assert_eq!(iter.next(), Some((4, 5)));
    // The pairs (5, 6) and (6, 7) are still to come.
    assert_eq!(iter.size_hint(), (2, Some(2)));
    assert_eq!(iter.next(), Some((5, 6)));
    assert_eq!(iter.size_hint(), (1, Some(1)));
    assert_eq!(iter.next(), Some((6, 7)));
    assert_eq!(iter.size_hint(), (0, Some(0)));
    assert_eq!(iter.next(), None);
    assert_eq!(iter.size_hint(), (0, Some(0)));
    let mut empty = tuple_strip(Vec::<u8>::new());
    assert_eq!(empty.size_hint(), (0, Some(0)));
    assert_eq!(empty.next(), None);
}
