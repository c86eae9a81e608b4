use diffgroup::Lookup;
use std::collections::HashMap;

fn exercise<L: Lookup<u64, u32>>(mut m: L) {
    assert_eq!(m.get_ref(&7), None);
    let mut calls = 0;
    *m.entry_or_insert(7, || {
        calls += 1;
        10
    }) += 1;
    assert_eq!(m.get_ref(&7), Some(&11));
    let v = m.entry_or_insert(7, || {
        calls += 1;
        99
    });
    assert_eq!(*v, 11);
    assert_eq!(calls, 1);
    if let Some(x) = m.get_mut(&7) {
        *x = 20;
    }
    assert_eq!(m.get_ref(&7), Some(&20));
    assert!(m.get_mut(&8).is_none());
    m.entry_or_insert(8, || 30);
    assert_eq!(m.remove_key(&7), Some(20));
    assert_eq!(m.remove_key(&7), None);
    assert_eq!(m.get_ref(&8), Some(&30));
}

#[test]
fn hash_lookup_semantics() {
    exercise(<HashMap<u64, u32> as Lookup<u64, u32>>::new());
}

#[test]
fn vec_lookup_semantics() {
    exercise(<Vec<(u64, u32)> as Lookup<u64, u32>>::new());
}

#[test]
fn dense_lookup_semantics() {
    exercise(<(Vec<Option<u32>>, u64) as Lookup<u64, u32>>::new());
}

#[test]
fn vec_lookup_remove_swaps_last() {
    let mut m = <Vec<(u64, u32)> as Lookup<u64, u32>>::new();
    m.entry_or_insert(1, || 1);
    m.entry_or_insert(2, || 2);
    m.entry_or_insert(3, || 3);
    assert_eq!(m.remove_key(&1), Some(1));
    assert_eq!(m, vec![(3, 3), (2, 2)]);
    assert_eq!(m.get_ref(&2), Some(&2));
    assert_eq!(m.get_ref(&3), Some(&3));
}

#[test]
fn dense_lookup_shift_shares_slots() {
    let mut m: (Vec<Option<u32>>, u64) = (Vec::new(), 2);
    m.entry_or_insert(9, || 5);
    // 9 >> 2 == 2 == 10 >> 2
    assert_eq!(m.get_ref(&10), Some(&5));
    assert_eq!(m.get_ref(&12), None);
    assert_eq!(m.0.len(), 3);
    assert_eq!(m.remove_key(&8), Some(5));
    assert_eq!(m.get_ref(&9), None);
    assert_eq!(m.remove_key(&1000), None);
}

#[test]
fn vec_lookup_layout() {
    let mut m = <Vec<(u64, u32)> as Lookup<u64, u32>>::new();
    m.entry_or_insert(4, || 40);
    m.entry_or_insert(2, || 20);
    assert_eq!(m, vec![(4, 40), (2, 20)]);
    m.entry_or_insert(4, || 99);
    *m.get_mut(&4).unwrap() = 41;
    assert_eq!(m, vec![(4, 41), (2, 20)]);
    let before = m.clone();
    m.entry_or_insert(9, || 90);
    assert_eq!(m.remove_key(&9), Some(90));
    assert_eq!(m, before);
    assert_eq!(m.remove_key(&7), None);
    assert_eq!(m, before);
}

#[test]
fn dense_lookup_layout() {
    let m = <(Vec<Option<u32>>, u64) as Lookup<u64, u32>>::new();
    assert_eq!(m, (vec![], 0));
    let mut m = m;
    m.entry_or_insert(3, || 30);
    assert_eq!(m.0, vec![None, None, None, Some(30)]);
    assert!(m.get_mut(&10).is_none());
    assert_eq!(m.0.len(), 4);
    m.entry_or_insert(1, || 10);
    assert_eq!(m.0, vec![None, Some(10), None, Some(30)]);
    assert_eq!(m.remove_key(&3), Some(30));
    assert_eq!(m.0, vec![None, Some(10), None, None]);
}
