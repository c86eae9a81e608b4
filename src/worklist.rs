use vstd::prelude::*;
use crate::lookup::{first_index, lemma_lookup_unique, lemma_push_new, lemma_swap_remove, lemma_update_value};
use crate::time::Time;

verus! {

// Per-time lists kept by the group operator: the updates delivered for a
// time that is not yet finished, and the keys to reconsider at a time.

pub(crate) proof fn lemma_push_contains<T>(s: Seq<T>, x: T, y: T)
    ensures
        s.push(x).contains(y) <==> s.contains(y) || x == y,
{
    if s.push(x).contains(y) {
        let i = choose|i: int| 0 <= i < s.push(x).len() && s.push(x)[i] == y;
        if i < s.len() { assert(s[i] == y); }
    }
    if s.contains(y) {
        let i = choose|i: int| 0 <= i < s.len() && s[i] == y;
        assert(s.push(x)[i] == y);
    }
    if x == y { assert(s.push(x)[s.len() as int] == y); }
}

/// Times are distinct; each time's keys are nonempty and strictly increasing.
/// No time occurs twice.
pub open spec fn times_unique<V>(p: Seq<(Time, V)>) -> bool {
    forall|i: int, j: int| 0 <= i < j < p.len() ==> #[trigger] p[i].0 != #[trigger] p[j].0
}

/// The updates staged for time `t`.
pub open spec fn staged_updates(p: Seq<(Time, Vec<(u64, u64, i64)>)>, t: Time) -> Seq<(u64, u64, i64)> {
    match first_index(p, t) {
        Some(i) => p[i].1@,
        None => Seq::empty(),
    }
}

/// The staged updates at `i`, to be written in place.
fn staged_mut(p: &mut Vec<(Time, Vec<(u64, u64, i64)>)>, i: usize) -> (r: &mut Vec<(u64, u64, i64)>)
    requires
        i < old(p).len(),
    ensures
        *r == old(p)@[i as int].1,
        final(p)@ == old(p)@.update(i as int, (old(p)@[i as int].0, *final(r))),
{
    &mut p[i].1
}

/// Appends `batch` to the updates staged for time `t`.
pub(crate) fn stage(p: &mut Vec<(Time, Vec<(u64, u64, i64)>)>, t: Time, batch: Vec<(u64, u64, i64)>)
    requires
        times_unique(old(p)@),
    ensures
        times_unique(final(p)@),
        staged_updates(final(p)@, t) == staged_updates(old(p)@, t) + batch@,
        forall|t2: Time| t2 != t ==> #[trigger] staged_updates(final(p)@, t2) == staged_updates(old(p)@, t2),
{
    let mut batch = batch;
    let ghost b = batch@;
    proof { lemma_lookup_unique(p@, t); }
    match position_time(p, &t) {
        Some(i) => {
            let ghost before = p@;
            let list = staged_mut(p, i);
            list.append(&mut batch);
            proof {
                let after = p@;
                lemma_update_value(before, i as int, after[i as int].1);
                assert(after =~= before.update(i as int, (before[i as int].0, after[i as int].1)));
                assert forall|t2: Time| t2 != t implies #[trigger] staged_updates(after, t2) == staged_updates(before, t2) by {
                    lemma_lookup_unique(before, t2);
                }
            }
        },
        None => {
            let ghost before = p@;
            let x = (t, batch);
            let ghost xv = x;
            p.push(x);
            proof {
                let after = p@;
                lemma_push_new(before, xv);
                assert(staged_updates(before, t) =~= Seq::<(u64, u64, i64)>::empty());
                assert(after[before.len() as int].1@ == b);
                assert(staged_updates(before, t) + b =~= b);
                assert forall|t2: Time| t2 != t implies #[trigger] staged_updates(after, t2) == staged_updates(before, t2) by {
                    lemma_lookup_unique(before, t2);
                    if let Some(j) = first_index(before, t2) {
                        assert(after[j] == before[j]);
                    }
                }
            }
        },
    }
}

/// Removes and returns the updates staged for time `t`.
pub(crate) fn unstage(p: &mut Vec<(Time, Vec<(u64, u64, i64)>)>, t: Time) -> (r: Vec<(u64, u64, i64)>)
    requires
        times_unique(old(p)@),
    ensures
        times_unique(final(p)@),
        r@ == staged_updates(old(p)@, t),
        staged_updates(final(p)@, t).len() == 0,
        forall|t2: Time| t2 != t ==> #[trigger] staged_updates(final(p)@, t2) == staged_updates(old(p)@, t2),
{
    match position_time(p, &t) {
        Some(i) => {
            let ghost before = p@;
            let (_, list) = p.swap_remove(i);
            proof {
                lemma_swap_remove(before, i as int);
                assert forall|t2: Time| t2 != t implies #[trigger] staged_updates(p@, t2) == staged_updates(before, t2) by {
                    lemma_lookup_unique(before, t2);
                }
            }
            list
        },
        None => Vec::new(),
    }
}

pub open spec fn pending_well_formed(p: Seq<(Time, Vec<u64>)>) -> bool {
    &&& times_unique(p)
    &&& forall|i: int| 0 <= i < p.len() ==> #[trigger] p[i].1@.len() > 0 && strictly_sorted(p[i].1@)
}

pub open spec fn strictly_sorted(s: Seq<u64>) -> bool {
    forall|i: int, j: int| 0 <= i < j < s.len() ==> #[trigger] s[i] < #[trigger] s[j]
}

/// The keys waiting for time `t`.
pub open spec fn pending_keys(p: Seq<(Time, Vec<u64>)>, t: Time) -> Seq<u64> {
    match first_index(p, t) {
        Some(i) => p[i].1@,
        None => Seq::empty(),
    }
}

/// The position of the work-list of time `t`.
fn position_time<V>(p: &Vec<(Time, V)>, t: &Time) -> (r: Option<usize>)
    requires
        times_unique(p@),
    ensures
        r matches Some(i) ==> i < p.len() && p@[i as int].0 == *t,
        r matches Some(i) ==> first_index(p@, *t) == Some(i as int),
        r is None ==> first_index(p@, *t) is None,
{
    let mut i: usize = 0;
    while i < p.len()
        invariant
            i <= p.len(),
            forall|j: int| 0 <= j < i ==> p@[j].0 != *t,
        decreases p.len() - i,
    {
        if p[i].0 == *t {
            proof {
                assert(p@[i as int].0 == *t);
                assert forall|j: int| 0 <= j < i implies p@[j].0 != *t by {}
                crate::lookup::lemma_first_index_at(p@, *t, i as int);
            }
            return Some(i);
        }
        i = i + 1;
    }
    proof { crate::lookup::lemma_first_index_at(p@, *t, p@.len() as int); }
    None
}

/// Adds `k` to the strictly increasing `v`, unless it is there already.
fn insert_sorted(v: &mut Vec<u64>, k: u64)
    requires
        strictly_sorted(old(v)@),
    ensures
        strictly_sorted(final(v)@),
        final(v)@.len() > 0,
        forall|x: u64| #[trigger] final(v)@.contains(x) <==> old(v)@.contains(x) || x == k,
{
    let mut p: usize = 0;
    while p < v.len() && v[p] < k
        invariant
            p <= v.len(),
            forall|i: int| 0 <= i < p ==> #[trigger] v@[i] < k,
        decreases v.len() - p,
    {
        p = p + 1;
    }
    if p < v.len() && v[p] == k {
        proof { assert(v@[p as int] == k); }
        return;
    }
    let ghost before = v@;
    v.insert(p, k);
    proof {
        assert forall|i: int, j: int| 0 <= i < j < v@.len() implies #[trigger] v@[i] < #[trigger] v@[j] by {
            if i < p && j < p {
            } else if j == p {
            } else if i < p {
                assert(v@[j] == before[j - 1]);
                if j - 1 > p { assert(before[p as int] < before[j - 1]); }
            } else if i == p {
                assert(v@[j] == before[j - 1]);
                if j - 1 > p { assert(before[p as int] < before[j - 1]); }
            } else {
                assert(before[i - 1] < before[j - 1]);
            }
        }
        assert forall|x: u64| #[trigger] v@.contains(x) <==> before.contains(x) || x == k by {
            if v@.contains(x) {
                let i = choose|i: int| 0 <= i < v@.len() && v@[i] == x;
                if i < p { assert(before[i] == x); } else if i > p { assert(before[i - 1] == x); }
            }
            if before.contains(x) {
                let i = choose|i: int| 0 <= i < before.len() && before[i] == x;
                if i < p { assert(v@[i] == x); } else { assert(v@[i + 1] == x); }
            }
            if x == k { assert(v@[p as int] == x); }
        }
    }
}

/// The work-list at `i`, to be written in place.
fn pending_mut(p: &mut Vec<(Time, Vec<u64>)>, i: usize) -> (r: &mut Vec<u64>)
    requires
        i < old(p).len(),
    ensures
        *r == old(p)@[i as int].1,
        final(p)@ == old(p)@.update(i as int, (old(p)@[i as int].0, *final(r))),
{
    &mut p[i].1
}

/// Adds `key` to the work-list of time `t`; `true` when `t` had none.
pub(crate) fn add_pending(p: &mut Vec<(Time, Vec<u64>)>, t: Time, key: u64) -> (fresh: bool)
    requires
        pending_well_formed(old(p)@),
    ensures
        pending_well_formed(final(p)@),
        fresh <==> pending_keys(old(p)@, t).len() == 0,
        forall|t2: Time, k: u64| #[trigger] pending_keys(final(p)@, t2).contains(k) <==> pending_keys(old(p)@, t2).contains(k)
            || (t2 == t && k == key),
{
    proof { lemma_lookup_unique(p@, t); }
    match position_time(p, &t) {
        Some(i) => {
            let ghost before = p@;
            let list = pending_mut(p, i);
            insert_sorted(list, key);
            proof {
                let after = p@;
                lemma_update_value(before, i as int, after[i as int].1);
                assert(after =~= before.update(i as int, (before[i as int].0, after[i as int].1)));
                assert forall|a: int| 0 <= a < after.len() implies #[trigger] after[a].1@.len() > 0 && strictly_sorted(after[a].1@) by {
                    if a != i as int { assert(after[a] == before[a]); }
                }
                assert forall|t2: Time, k: u64| #[trigger] pending_keys(after, t2).contains(k) <==> pending_keys(before, t2).contains(k)
                    || (t2 == t && k == key) by {
                    lemma_lookup_unique(before, t2);
                }
            }
            false
        },
        None => {
            let ghost before = p@;
            let mut list: Vec<u64> = Vec::new();
            list.push(key);
            p.push((t, list));
            proof {
                let after = p@;
                lemma_push_new(before, (t, list));
                assert forall|a: int| 0 <= a < after.len() implies #[trigger] after[a].1@.len() > 0 && strictly_sorted(after[a].1@) by {
                    if a < before.len() { assert(after[a] == before[a]); }
                }
                assert forall|t2: Time, k: u64| #[trigger] pending_keys(after, t2).contains(k) <==> pending_keys(before, t2).contains(k)
                    || (t2 == t && k == key) by {
                    lemma_lookup_unique(before, t2);
                    lemma_lookup_unique(after, t2);
                    if t2 == t {
                        assert(after[before.len() as int].1@ == seq![key]);
                        assert(seq![key][0] == key);
                    } else if let Some(j) = first_index(before, t2) {
                        assert(after[j] == before[j]);
                    }
                }
            }
            true
        },
    }
}

/// A copy of the work-list of time `t`.
pub(crate) fn copy_pending(p: &Vec<(Time, Vec<u64>)>, t: &Time) -> (r: Vec<u64>)
    requires
        pending_well_formed(p@),
    ensures
        r@ == pending_keys(p@, *t),
        strictly_sorted(r@),
{
    let mut r: Vec<u64> = Vec::new();
    match position_time(p, t) {
        Some(i) => {
            let list = &p[i].1;
            let mut j: usize = 0;
            while j < list.len()
                invariant
                    j <= list.len(),
                    r@ == list@.take(j as int),
                decreases list.len() - j,
            {
                r.push(list[j]);
                proof { assert(r@ =~= list@.take(j + 1)); }
                j = j + 1;
            }
            proof { assert(list@.take(list@.len() as int) =~= list@); }
        },
        None => {},
    }
    r
}

/// Removes and returns the work-list of time `t`.
pub(crate) fn take_pending(p: &mut Vec<(Time, Vec<u64>)>, t: Time) -> (r: Vec<u64>)
    requires
        pending_well_formed(old(p)@),
    ensures
        pending_well_formed(final(p)@),
        r@ == pending_keys(old(p)@, t),
        strictly_sorted(r@),
        pending_keys(final(p)@, t).len() == 0,
        forall|t2: Time| t2 != t ==> #[trigger] pending_keys(final(p)@, t2) == pending_keys(old(p)@, t2),
{
    match position_time(p, &t) {
        Some(i) => {
            let ghost before = p@;
            let (_, list) = p.swap_remove(i);
            proof {
                let after = p@;
                lemma_swap_remove(before, i as int);
                assert forall|a: int| 0 <= a < after.len() implies #[trigger] after[a].1@.len() > 0 && strictly_sorted(after[a].1@) by {
                    let b = if a == i as int { before.len() - 1 } else { a };
                    assert(after[a] == before[b]);
                }
                assert forall|t2: Time| t2 != t implies #[trigger] pending_keys(after, t2) == pending_keys(before, t2) by {
                    lemma_lookup_unique(before, t2);
                }
            }
            list
        },
        None => Vec::new(),
    }
}

} // verus!
