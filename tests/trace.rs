use diffgroup::{Compact, Time, Trace};
use std::collections::HashMap;

#[test]
fn compact_groups_by_key() {
    let c = Compact::from_updates(&vec![(2, 5, 1), (1, 3, 1), (2, 4, 2), (1, 3, -1), (2, 5, 1)]).unwrap();
    assert_eq!(c.groups, vec![(2, vec![(4, 2), (5, 2)])]);
    assert!(!c.is_empty());
}

#[test]
fn compact_of_cancelling_batch_is_empty() {
    let c = Compact::from_updates(&vec![(1, 3, 1), (1, 3, -1)]).unwrap();
    assert!(c.is_empty());
    assert!(Compact::new().is_empty());
}

#[test]
fn compact_overflow_is_none() {
    assert!(Compact::from_updates(&vec![(1, 3, i64::MAX), (1, 3, 1)]).is_none());
    assert!(Compact::from_updates(&vec![(1, 3, i64::MIN)]).is_none());
}

#[test]
fn trace_collection_accumulates_earlier_times() {
    let mut t: Trace<HashMap<u64, usize>> = Trace::new();
    t.set_difference(Time::new(0, 0), Compact::from_updates(&vec![(1, 5, 1), (1, 3, 1), (2, 7, 1)]).unwrap());
    t.set_difference(Time::new(1, 0), Compact::from_updates(&vec![(1, 5, -1)]).unwrap());
    t.set_difference(Time::new(0, 1), Compact::from_updates(&vec![(1, 9, 2)]).unwrap());
    assert_eq!(t.collection(1, &Time::new(0, 0)), Some(vec![(3, 1), (5, 1)]));
    assert_eq!(t.collection(1, &Time::new(1, 0)), Some(vec![(3, 1)]));
    assert_eq!(t.collection(1, &Time::new(0, 1)), Some(vec![(3, 1), (5, 1), (9, 2)]));
    assert_eq!(t.collection(1, &Time::new(1, 1)), Some(vec![(3, 1), (9, 2)]));
    assert_eq!(t.collection(2, &Time::new(5, 5)), Some(vec![(7, 1)]));
    assert_eq!(t.collection(3, &Time::new(5, 5)), Some(vec![]));
}

#[test]
fn trace_interesting_times_joins_history() {
    let mut t: Trace<Vec<(u64, usize)>> = Trace::new();
    t.set_difference(Time::new(0, 2), Compact::from_updates(&vec![(1, 5, 1)]).unwrap());
    t.set_difference(Time::new(3, 0), Compact::from_updates(&vec![(1, 5, 1)]).unwrap());
    t.set_difference(Time::new(0, 0), Compact::from_updates(&vec![(1, 5, 1)]).unwrap());
    let times = t.interesting_times(1, &Time::new(1, 1));
    assert_eq!(times, vec![Time::new(1, 1), Time::new(1, 2), Time::new(3, 1)]);
    assert_eq!(t.interesting_times(2, &Time::new(1, 1)), vec![Time::new(1, 1)]);
}

#[test]
fn time_order_and_join() {
    let a = Time::new(1, 4);
    let b = Time::new(2, 3);
    assert!(!a.less_equal(&b));
    assert!(!b.less_equal(&a));
    assert_eq!(a.join(&b), Time::new(2, 4));
    assert!(a.less_equal(&a.join(&b)));
}
