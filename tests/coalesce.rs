use diffgroup::{coalesce, consolidate, negate};

#[test]
fn coalesce_merges_and_sums() {
    let a = vec![(1, 2), (3, 1), (5, -1)];
    let b = vec![(2, 4), (3, -1), (5, 3)];
    assert_eq!(coalesce(&a, &b), Some(vec![(1, 2), (2, 4), (5, 2)]));
}

#[test]
fn coalesce_with_negation_is_empty() {
    let a = vec![(1, 2), (4, -3), (9, 7)];
    let n = negate(&a);
    assert_eq!(n, vec![(1, -2), (4, 3), (9, -7)]);
    assert_eq!(coalesce(&a, &n), Some(vec![]));
    assert_eq!(coalesce(&n, &a), Some(vec![]));
}

#[test]
fn coalesce_with_itself_doubles() {
    let a = vec![(1, 2), (4, -3), (9, 7)];
    assert_eq!(coalesce(&a, &a), Some(vec![(1, 4), (4, -6), (9, 14)]));
}

#[test]
fn coalesce_empty_sides() {
    let a = vec![(1, 2)];
    assert_eq!(coalesce(&a, &vec![]), Some(vec![(1, 2)]));
    assert_eq!(coalesce(&vec![], &a), Some(vec![(1, 2)]));
    assert_eq!(coalesce(&vec![], &vec![]), Some(vec![]));
}

#[test]
fn coalesce_overflow_is_none() {
    let a = vec![(1, i64::MAX)];
    let b = vec![(1, 1)];
    assert_eq!(coalesce(&a, &b), None);
    let c = vec![(2, 1)];
    assert_eq!(coalesce(&a, &c), Some(vec![(1, i64::MAX), (2, 1)]));
}

#[test]
fn consolidate_sorts_and_cancels() {
    let s = vec![(5, 1), (3, 2), (5, -1), (1, 0), (3, 1)];
    assert_eq!(consolidate(&s), Some(vec![(3, 3)]));
    assert_eq!(consolidate(&vec![]), Some(vec![]));
}

#[test]
fn consolidate_rejects_out_of_range() {
    assert_eq!(consolidate(&vec![(1, i64::MIN)]), None);
    assert_eq!(consolidate(&vec![(1, i64::MAX), (1, 1)]), None);
    assert_eq!(consolidate(&vec![(1, i64::MAX), (1, -1), (1, 1)]), Some(vec![(1, i64::MAX)]));
}

#[test]
fn coalesce_accepts_sorted_unconsolidated_input() {
    let a = vec![(1, 2), (1, -2), (3, 0), (3, 4)];
    let b = vec![(2, 1), (3, -1)];
    assert_eq!(coalesce(&a, &b), Some(vec![(2, 1), (3, 3)]));
}
