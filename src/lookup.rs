use std::collections::HashMap;
use vstd::prelude::*;

verus! {

/// A key-indexed store with interchangeable backing structures.
///
/// The abstract content is `lookup`: what a read of a key returns. Some
/// strategies index several keys by one slot (`shares_slot`); writing one of
/// them is seen by all of them.
pub trait Lookup<K, V>: Sized {
    spec fn well_formed(&self) -> bool;

    /// What a read of `k` returns.
    spec fn lookup(&self, k: K) -> Option<V>;

    /// Whether `a` and `b` are stored in one place.
    spec fn shares_slot(&self, a: K, b: K) -> bool;

    fn new() -> (r: Self)
        ensures
            r.well_formed(),
            forall|k: K| #[trigger] r.lookup(k) is None,
            forall|a: K, b: K| #[trigger] r.shares_slot(a, b) <==> a == b,
    ;

    fn get_ref(&self, key: &K) -> (r: Option<&V>)
        requires
            self.well_formed(),
        ensures
            r matches Some(v) ==> self.lookup(*key) == Some(*v),
            r is None ==> self.lookup(*key) is None,
    ;

    fn get_mut(&mut self, key: &K) -> (r: Option<&mut V>)
        requires
            old(self).well_formed(),
        ensures
            final(self).well_formed(),
            r matches Some(v) ==> old(self).lookup(*key) == Some(*v),
            r is None ==> old(self).lookup(*key) is None,
            r is None ==> forall|k: K| #[trigger] final(self).lookup(k) == old(self).lookup(k),
            r matches Some(v) ==> forall|k: K| #[trigger]
                final(self).lookup(k) == if old(self).shares_slot(k, *key) {
                    Some(*final(v))
                } else {
                    old(self).lookup(k)
                },
            forall|a: K, b: K| #[trigger]
                final(self).shares_slot(a, b) == old(self).shares_slot(a, b),
    ;

    /// The entry of `key`; when there is none, one is made with `func`, which
    /// is called at most once.
    fn entry_or_insert<F: FnMut() -> V>(&mut self, key: K, func: F) -> (r: &mut V)
        requires
            old(self).well_formed(),
            call_requires(func, ()),
        ensures
            final(self).well_formed(),
            old(self).lookup(key) matches Some(v) ==> *r == v,
            old(self).lookup(key) is None ==> call_ensures(func, (), *r),
            forall|k: K| #[trigger]
                final(self).lookup(k) == if old(self).shares_slot(k, key) {
                    Some(*final(r))
                } else {
                    old(self).lookup(k)
                },
            forall|a: K, b: K| #[trigger]
                final(self).shares_slot(a, b) == old(self).shares_slot(a, b),
    ;

    fn remove_key(&mut self, key: &K) -> (r: Option<V>)
        requires
            old(self).well_formed(),
        ensures
            final(self).well_formed(),
            r == old(self).lookup(*key),
            forall|k: K| #[trigger]
                final(self).lookup(k) == if old(self).shares_slot(k, *key) {
                    None
                } else {
                    old(self).lookup(k)
                },
            forall|a: K, b: K| #[trigger]
                final(self).shares_slot(a, b) == old(self).shares_slot(a, b),
    ;
}

/// The index of the first pair of `s` whose key is `k`, if any.
pub open spec fn first_index<K, V>(s: Seq<(K, V)>, k: K) -> Option<int>
    decreases s.len(),
{
    if s.len() == 0 {
        None
    } else if s[0].0 == k {
        Some(0int)
    } else {
        match first_index(s.drop_first(), k) {
            Some(i) => Some(i + 1),
            None => None,
        }
    }
}

/// Linear scan over `(key, value)` pairs.
impl<V> Lookup<u64, V> for Vec<(u64, V)> {
    /// No key occurs twice.
    open spec fn well_formed(&self) -> bool {
        forall|i: int, j: int|
            0 <= i < j < self@.len() ==> #[trigger] self@[i].0 != #[trigger] self@[j].0
    }

    open spec fn lookup(&self, k: u64) -> Option<V> {
        match first_index(self@, k) {
            Some(i) => Some(self@[i].1),
            None => None,
        }
    }

    open spec fn shares_slot(&self, a: u64, b: u64) -> bool {
        a == b
    }

    fn new() -> (r: Self)
        ensures
            r@.len() == 0,
    {
        Vec::new()
    }

    fn get_ref(&self, key: &u64) -> (r: Option<&V>) {
        proof { lemma_lookup_unique(self@, *key); }
        match position(self, *key) {
            Some(i) => Some(&self[i].1),
            None => None,
        }
    }

    /// The pairs keep their length and the position of every key; only the
    /// value of `key`, when present, can be written.
    fn get_mut(&mut self, key: &u64) -> (r: Option<&mut V>)
        ensures
            final(self)@.len() == old(self)@.len(),
            forall|j: int| 0 <= j < old(self)@.len() ==> #[trigger] final(self)@[j].0 == old(self)@[j].0,
            r is None ==> final(self)@ == old(self)@,
            r matches Some(v) ==> (first_index(old(self)@, *key) matches Some(i)
                && final(self)@ == old(self)@.update(i, (*key, *final(v)))),
    {
        proof { lemma_lookup_unique(self@, *key); }
        match position(self, *key) {
            Some(i) => {
                let ghost before = self@;
                let r = value_mut(self, i);
                proof { lemma_update_value(before, i as int, *final(r)); }
                Some(r)
            },
            None => None,
        }
    }

    /// A present key keeps its place; a new key is pushed at the end.
    fn entry_or_insert<F: FnMut() -> V>(&mut self, key: u64, mut func: F) -> (r: &mut V)
        ensures
            first_index(old(self)@, key) matches Some(i) ==> final(self)@ == old(self)@.update(
                i,
                (key, *final(r)),
            ),
            first_index(old(self)@, key) is None ==> final(self)@ == old(self)@.push((key, *final(r))),
    {
        proof { lemma_lookup_unique(self@, key); }
        match position(self, key) {
            Some(i) => {
                let ghost before = self@;
                let r = value_mut(self, i);
                proof { lemma_update_value(before, i as int, *final(r)); }
                r
            },
            None => {
                let v = func();
                let ghost start = self@;
                self.push((key, v));
                proof { lemma_push_new(start, (key, v)); }
                let last = self.len() - 1;
                let ghost before = self@;
                let r = value_mut(self, last);
                proof {
                    lemma_update_value(before, last as int, *final(r));
                    assert forall|k: u64| k != key implies (match #[trigger] first_index(start, k) {
                        Some(j) => 0 <= j < start.len() && before[j] == start[j],
                        None => true,
                    }) by {
                        lemma_lookup_unique(start, k);
                    }
                }
                r
            },
        }
    }

    /// The pair of `key` is swapped with the last pair, which is then
    /// dropped; an absent key leaves the pairs as they are.
    fn remove_key(&mut self, key: &u64) -> (r: Option<V>)
        ensures
            first_index(old(self)@, *key) matches Some(i) ==> final(self)@ == old(self)@.update(
                i,
                old(self)@.last(),
            ).drop_last(),
            first_index(old(self)@, *key) is None ==> final(self)@ == old(self)@,
    {
        proof { lemma_lookup_unique(self@, *key); }
        match position(self, *key) {
            Some(i) => {
                let ghost before = self@;
                let r = self.swap_remove(i).1;
                proof { lemma_swap_remove(before, i as int); }
                Some(r)
            },
            None => None,
        }
    }
}

/// A hash table, for arbitrary keys.
impl<V> Lookup<u64, V> for HashMap<u64, V> {
    open spec fn well_formed(&self) -> bool {
        true
    }

    open spec fn lookup(&self, k: u64) -> Option<V> {
        if self@.contains_key(k) {
            Some(self@[k])
        } else {
            None
        }
    }

    open spec fn shares_slot(&self, a: u64, b: u64) -> bool {
        a == b
    }

    fn new() -> (r: Self) {
        HashMap::new()
    }

    fn get_ref(&self, key: &u64) -> (r: Option<&V>) {
        broadcast use vstd::std_specs::hash::group_hash_axioms;
        self.get(key)
    }

    fn get_mut(&mut self, key: &u64) -> (r: Option<&mut V>) {
        hash_get_mut(self, key)
    }

    fn entry_or_insert<F: FnMut() -> V>(&mut self, key: u64, mut func: F) -> (r: &mut V) {
        broadcast use vstd::std_specs::hash::group_hash_axioms;
        if !self.contains_key(&key) {
            let v = func();
            self.insert(key, v);
        }
        hash_get_mut(self, &key).unwrap()
    }

    fn remove_key(&mut self, key: &u64) -> (r: Option<V>) {
        broadcast use vstd::std_specs::hash::group_hash_axioms;
        self.remove(key)
    }
}

/// Relies on `HashMap::get_mut`: a handle on the value of `k`, if present,
/// through which the map is written.
#[verifier::external_body]
fn hash_get_mut<'a, V>(m: &'a mut HashMap<u64, V>, k: &u64) -> (r: Option<&'a mut V>)
    ensures
        match r {
            Some(v) => old(m)@.contains_key(*k) && *v == old(m)@[*k]
                && final(m)@ == old(m)@.insert(*k, *final(v)),
            None => !old(m)@.contains_key(*k) && final(m)@ == old(m)@,
        },
{
    m.get_mut(k)
}

/// The slot of key `k` in a dense array that drops the `shift` low bits.
pub open spec fn slot_of(k: u64, shift: u64) -> int {
    (k >> shift) as int
}

proof fn lemma_shift_zero(a: u64, b: u64)
    ensures
        (a >> 0u64 == b >> 0u64) <==> a == b,
{
    assert(a >> 0u64 == a) by (bit_vector);
    assert(b >> 0u64 == b) by (bit_vector);
}

/// A dense array indexed by the key without its `shift` low bits, which an
/// upstream partitioning has already used; an empty slot means no entry.
impl<V> Lookup<u64, V> for (Vec<Option<V>>, u64) {
    open spec fn well_formed(&self) -> bool {
        self.1 < 64
    }

    open spec fn lookup(&self, k: u64) -> Option<V> {
        if slot_of(k, self.1) < self.0@.len() {
            self.0@[slot_of(k, self.1)]
        } else {
            None
        }
    }

    open spec fn shares_slot(&self, a: u64, b: u64) -> bool {
        slot_of(a, self.1) == slot_of(b, self.1)
    }

    fn new() -> (r: Self)
        ensures
            r.0@.len() == 0,
            r.1 == 0,
    {
        proof {
            assert forall|a: u64, b: u64| slot_of(a, 0) == slot_of(b, 0) <==> a == b by {
                lemma_shift_zero(a, b);
            }
            assert forall|a: u64, b: u64| (a >> 0u64 == b >> 0u64) <==> a == b by {
                lemma_shift_zero(a, b);
            }
        }
        (Vec::new(), 0)
    }

    fn get_ref(&self, key: &u64) -> (r: Option<&V>) {
        let slot = *key >> self.1;
        if slot < self.0.len() as u64 {
            match &self.0[slot as usize] {
                Some(v) => Some(v),
                None => None,
            }
        } else {
            None
        }
    }

    /// The array keeps its length, its shift and every other slot.
    fn get_mut(&mut self, key: &u64) -> (r: Option<&mut V>)
        ensures
            final(self).1 == old(self).1,
            final(self).0@.len() == old(self).0@.len(),
            forall|j: int| 0 <= j < old(self).0@.len() && j != slot_of(*key, old(self).1)
                ==> #[trigger] final(self).0@[j] == old(self).0@[j],
            r is None ==> final(self).0@ == old(self).0@,
            r matches Some(v) ==> final(self).0@ == old(self).0@.update(slot_of(*key, old(self).1), Some(*final(v))),
    {
        let slot = *key >> self.1;
        if slot < self.0.len() as u64 {
            slot_mut(&mut self.0, slot as usize).as_mut()
        } else {
            None
        }
    }

    /// The array grows, with empty slots, only as far as the slot of `key`.
    fn entry_or_insert<F: FnMut() -> V>(&mut self, key: u64, mut func: F) -> (r: &mut V)
        ensures
            final(self).1 == old(self).1,
            final(self).0@.len() == if slot_of(key, old(self).1) < old(self).0@.len() {
                old(self).0@.len() as int
            } else {
                slot_of(key, old(self).1) + 1
            },
            forall|j: int| 0 <= j < final(self).0@.len() && j != slot_of(key, old(self).1)
                ==> #[trigger] final(self).0@[j] == if j < old(self).0@.len() {
                    old(self).0@[j]
                } else {
                    None
                },
            final(self).0@[slot_of(key, old(self).1)] == Some(*final(r)),
    {
        let slot = key >> self.1;
        while self.0.len() as u64 <= slot
            invariant
                self.1 == old(self).1,
                self.0@.len() >= old(self).0@.len(),
                forall|i: int| 0 <= i < old(self).0@.len() ==> self.0@[i] == old(self).0@[i],
                forall|i: int| old(self).0@.len() <= i < self.0@.len() ==> self.0@[i] is None,
                self.0@.len() <= if slot < old(self).0@.len() { old(self).0@.len() as int } else { slot + 1 },
            decreases slot + 1 - self.0@.len(),
        {
            self.0.push(None);
        }
        let slot = slot as usize;
        if self.0[slot].is_none() {
            let v = func();
            self.0.set(slot, Some(v));
        }
        slot_mut(&mut self.0, slot).as_mut().unwrap()
    }

    /// Exactly the slot of `key` is emptied, when in range.
    fn remove_key(&mut self, key: &u64) -> (r: Option<V>)
        ensures
            final(self).1 == old(self).1,
            final(self).0@ == if slot_of(*key, old(self).1) < old(self).0@.len() {
                old(self).0@.update(slot_of(*key, old(self).1), None)
            } else {
                old(self).0@
            },
    {
        let slot = *key >> self.1;
        if slot < self.0.len() as u64 {
            slot_mut(&mut self.0, slot as usize).take()
        } else {
            None
        }
    }
}

/// The slot at `i`, to be written in place.
fn slot_mut<V>(s: &mut Vec<Option<V>>, i: usize) -> (r: &mut Option<V>)
    requires
        i < old(s).len(),
    ensures
        *r == old(s)@[i as int],
        final(s)@ == old(s)@.update(i as int, *final(r)),
{
    &mut s[i]
}

/// Inserting a new key into the pairs and then removing it restores the
/// pairs exactly: the new pair goes last, and removing the last pair only
/// drops it.
pub proof fn lemma_insert_remove_restores<V>(s: Seq<(u64, V)>, k: u64, v: V)
    requires
        first_index(s, k) is None,
    ensures
        first_index(s.push((k, v)), k) == Some(s.len() as int),
        s.push((k, v)).update(s.len() as int, s.push((k, v)).last()).drop_last() == s,
{
    let t = s.push((k, v));
    lemma_first_absent(s, k);
    lemma_first_index_at(t, k, s.len() as int);
    assert(t.update(s.len() as int, t.last()).drop_last() =~= s);
}

proof fn lemma_first_absent<V>(s: Seq<(u64, V)>, k: u64)
    requires
        first_index(s, k) is None,
    ensures
        forall|j: int| 0 <= j < s.len() ==> #[trigger] s[j].0 != k,
    decreases s.len(),
{
    if s.len() > 0 {
        lemma_first_absent(s.drop_first(), k);
        assert forall|j: int| 0 <= j < s.len() implies #[trigger] s[j].0 != k by {
            if j > 0 { assert(s[j] == s.drop_first()[j - 1]); }
        }
    }
}

/// The value of the pair at `i`, to be written in place.
fn value_mut<V>(s: &mut Vec<(u64, V)>, i: usize) -> (r: &mut V)
    requires
        i < old(s).len(),
    ensures
        *r == old(s)@[i as int].1,
        final(s)@ == old(s)@.update(i as int, (old(s)@[i as int].0, *final(r))),
{
    &mut s[i].1
}

/// The position of the first pair whose key is `key`.
fn position<V>(s: &Vec<(u64, V)>, key: u64) -> (r: Option<usize>)
    ensures
        r matches Some(i) ==> i < s.len() && s@[i as int].0 == key
            && first_index(s@, key) == Some(i as int),
        r is None ==> first_index(s@, key) is None,
{
    let mut i: usize = 0;
    while i < s.len()
        invariant
            i <= s.len(),
            forall|j: int| 0 <= j < i ==> s@[j].0 != key,
        decreases s.len() - i,
    {
        if s[i].0 == key {
            proof { lemma_first_index_at(s@, key, i as int); }
            return Some(i);
        }
        i = i + 1;
    }
    proof { lemma_first_index_at(s@, key, s@.len() as int); }
    None
}

pub(crate) proof fn lemma_first_index_at<K, V>(s: Seq<(K, V)>, k: K, i: int)
    requires
        0 <= i <= s.len(),
        forall|j: int| 0 <= j < i ==> s[j].0 != k,
    ensures
        i < s.len() && s[i].0 == k ==> first_index(s, k) == Some(i),
        i == s.len() ==> first_index(s, k) is None,
    decreases s.len(),
{
    if s.len() > 0 && i > 0 {
        lemma_first_index_at(s.drop_first(), k, i - 1);
    }
}

/// With unique keys, a key is found exactly where it stands.
pub(crate) proof fn lemma_lookup_unique<K, V>(s: Seq<(K, V)>, k: K)
    requires
        forall|i: int, j: int| 0 <= i < j < s.len() ==> #[trigger] s[i].0 != #[trigger] s[j].0,
    ensures
        forall|i: int| 0 <= i < s.len() && #[trigger] s[i].0 == k ==> first_index(s, k) == Some(i),
        (forall|i: int| 0 <= i < s.len() ==> #[trigger] s[i].0 != k) ==> first_index(s, k) is None,
        first_index(s, k) matches Some(j) ==> 0 <= j < s.len() && s[j].0 == k,
{
    assert forall|i: int| 0 <= i < s.len() && #[trigger] s[i].0 == k implies first_index(s, k)
        == Some(i) by {
        assert forall|j: int| 0 <= j < i implies s[j].0 != k by {
            assert(s[j].0 != s[i].0);
        }
        lemma_first_index_at(s, k, i);
    }
    if forall|i: int| 0 <= i < s.len() ==> #[trigger] s[i].0 != k {
        lemma_first_index_at(s, k, s.len() as int);
    }
}

/// Replacing the value at `i` keeps the keys unique and changes only the
/// lookup of that key.
pub(crate) proof fn lemma_update_value<K, V>(s: Seq<(K, V)>, i: int, v: V)
    requires
        0 <= i < s.len(),
        forall|a: int, b: int| 0 <= a < b < s.len() ==> #[trigger] s[a].0 != #[trigger] s[b].0,
    ensures
        ({
            let t = s.update(i, (s[i].0, v));
            &&& forall|a: int, b: int|
                0 <= a < b < t.len() ==> #[trigger] t[a].0 != #[trigger] t[b].0
            &&& forall|k: K| #[trigger]
                first_index(t, k) == first_index(s, k)
            &&& forall|k: K| #[trigger] first_index(t, k) matches Some(j) ==> 0 <= j < s.len()
                && t[j] == if k == s[i].0 { (k, v) } else { s[j] }
        }),
{
    let t = s.update(i, (s[i].0, v));
    assert forall|a: int, b: int| 0 <= a < b < t.len() implies #[trigger] t[a].0 != #[trigger] t[b].0 by {
        assert(s[a].0 != s[b].0);
    }
    assert forall|k: K| #[trigger] first_index(t, k) == first_index(s, k) && (first_index(t, k) matches Some(j) ==> 0 <= j < s.len()
        && t[j] == if k == s[i].0 { (k, v) } else { s[j] }) by {
        lemma_lookup_unique(s, k);
        lemma_lookup_unique(t, k);
        if exists|j: int| 0 <= j < s.len() && s[j].0 == k {
            let j = choose|j: int| 0 <= j < s.len() && s[j].0 == k;
            assert(t[j].0 == k);
        }
    }
}

/// Pushing a pair with a new key keeps the keys unique and adds that key.
pub(crate) proof fn lemma_push_new<K, V>(s: Seq<(K, V)>, x: (K, V))
    requires
        forall|a: int, b: int| 0 <= a < b < s.len() ==> #[trigger] s[a].0 != #[trigger] s[b].0,
        first_index(s, x.0) is None,
    ensures
        ({
            let t = s.push(x);
            &&& forall|a: int, b: int|
                0 <= a < b < t.len() ==> #[trigger] t[a].0 != #[trigger] t[b].0
            &&& forall|k: K| k != x.0 ==> #[trigger] first_index(t, k) == first_index(s, k)
            &&& first_index(t, x.0) == Some(s.len() as int)
        }),
{
    let t = s.push(x);
    lemma_lookup_unique(s, x.0);
    assert forall|a: int, b: int| 0 <= a < b < t.len() implies #[trigger] t[a].0 != #[trigger] t[b].0 by {
        if b < s.len() { assert(s[a].0 != s[b].0); } else { assert(t[a] == s[a]); }
    }
    assert forall|k: K| k != x.0 implies #[trigger] first_index(t, k) == first_index(s, k) by {
        lemma_lookup_unique(s, k);
        lemma_lookup_unique(t, k);
        if exists|j: int| 0 <= j < s.len() && s[j].0 == k {
            let j = choose|j: int| 0 <= j < s.len() && s[j].0 == k;
            assert(t[j].0 == k);
        } else {
            assert forall|j: int| 0 <= j < t.len() implies #[trigger] t[j].0 != k by {
                if j < s.len() { assert(t[j] == s[j]); }
            }
        }
    }
    lemma_lookup_unique(t, x.0);
    assert(t[s.len() as int].0 == x.0);
}

/// `swap_remove` keeps the keys unique and removes exactly the key at `i`.
pub(crate) proof fn lemma_swap_remove<K, V>(s: Seq<(K, V)>, i: int)
    requires
        0 <= i < s.len(),
        forall|a: int, b: int| 0 <= a < b < s.len() ==> #[trigger] s[a].0 != #[trigger] s[b].0,
    ensures
        ({
            let t = s.update(i, s.last()).drop_last();
            &&& forall|a: int, b: int|
                0 <= a < b < t.len() ==> #[trigger] t[a].0 != #[trigger] t[b].0
            &&& first_index(t, s[i].0) is None
            &&& forall|k: K| k != s[i].0 ==> match #[trigger] first_index(s, k) {
                Some(j) => first_index(t, k) matches Some(jj) && t[jj] == s[j],
                None => first_index(t, k) is None,
            }
        }),
{
    let t = s.update(i, s.last()).drop_last();
    let n = s.len() - 1;
    assert forall|a: int, b: int| 0 <= a < b < t.len() implies #[trigger] t[a].0 != #[trigger] t[b].0 by {
        let sa = if a == i { n } else { a };
        let sb = if b == i { n } else { b };
        assert(t[a] == s[sa] && t[b] == s[sb]);
        assert(s[sa].0 != s[sb].0) by {
            if sa < sb { assert(s[sa].0 != s[sb].0); } else { assert(s[sb].0 != s[sa].0); }
        }
    }
    lemma_lookup_unique(s, s[i].0);
    lemma_lookup_unique(t, s[i].0);
    assert forall|j: int| 0 <= j < t.len() implies #[trigger] t[j].0 != s[i].0 by {
        let sj = if j == i { n } else { j };
        assert(t[j] == s[sj]);
        if sj < i { assert(s[sj].0 != s[i].0); } else if sj > i { assert(s[i].0 != s[sj].0); }
    }
    assert forall|k: K| k != s[i].0 implies match #[trigger] first_index(s, k) {
        Some(j) => first_index(t, k) matches Some(jj) && t[jj] == s[j],
        None => first_index(t, k) is None,
    } by {
        lemma_lookup_unique(s, k);
        lemma_lookup_unique(t, k);
        if exists|j: int| 0 <= j < s.len() && s[j].0 == k {
            let j = choose|j: int| 0 <= j < s.len() && s[j].0 == k;
            let jj = if j == n { i } else { j };
            assert(t[jj] == s[j]);
        } else {
            assert forall|j: int| 0 <= j < t.len() implies #[trigger] t[j].0 != k by {
                let sj = if j == i { n } else { j };
                assert(t[j] == s[sj]);
            }
        }
    }
}

} // verus!
