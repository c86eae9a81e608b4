use vstd::prelude::*;
use crate::coalesce::{coalesce, is_consolidated, lemma_consolidated_unique, lemma_weight_consolidated, weight_in_range, weight_of};
use crate::compact::{group_of, groups_well_formed, lemma_group_absent, lemma_group_present, Compact};
use crate::lookup::Lookup;
use crate::time::{time_join, time_le, Time};

verus! {

/// One key's installed differences, in order of installation.
pub struct History {
    pub key: u64,
    pub entries: Vec<(Time, Vec<(u64, i64)>)>,
}

/// The entries of a history as times and lists of differences.
pub open spec fn entries_view(e: Seq<(Time, Vec<(u64, i64)>)>) -> Seq<(Time, Seq<(u64, i64)>)> {
    Seq::new(e.len(), |i: int| (e[i].0, e[i].1@))
}

/// The net weight of `v` as of `t`: the sum over the entries installed at
/// times at or before `t`.
pub open spec fn acc_weight(h: Seq<(Time, Seq<(u64, i64)>)>, t: Time, v: u64) -> int
    decreases h.len(),
{
    if h.len() == 0 {
        0
    } else {
        acc_weight(h.drop_last(), t, v) + if time_le(h.last().0, t) {
            weight_of(h.last().1, v)
        } else {
            0
        }
    }
}

/// The consolidated list whose net weights are those of `h` as of `t`.
pub open spec fn collection_of(h: Seq<(Time, Seq<(u64, i64)>)>, t: Time) -> Seq<(u64, i64)> {
    choose|m: Seq<(u64, i64)>| is_consolidated(m) && forall|v: u64| #[trigger] weight_of(m, v) == acc_weight(h, t, v)
}

/// Whether accumulating the entries one by one keeps every net weight in range.
pub open spec fn acc_fits(h: Seq<(Time, Seq<(u64, i64)>)>, t: Time) -> bool {
    forall|n: int, v: u64|
        0 <= n <= h.len() ==> weight_in_range(#[trigger] acc_weight(h.take(n), t, v))
}

proof fn lemma_acc_take(h: Seq<(Time, Seq<(u64, i64)>)>, t: Time, n: int)
    requires
        0 <= n < h.len(),
    ensures
        forall|v: u64| #[trigger] acc_weight(h.take(n + 1), t, v) == acc_weight(h.take(n), t, v)
            + if time_le(h[n].0, t) {
            weight_of(h[n].1, v)
        } else {
            0
        },
{
    assert(h.take(n + 1).drop_last() =~= h.take(n));
}

/// The history of every key, as `(time, differences)` entries appended in
/// order, each entry's differences consolidated.
pub struct Trace<L> {
    index: L,
    histories: Vec<History>,
}

impl<L: Lookup<u64, usize>> Trace<L> {
    pub closed spec fn well_formed(&self) -> bool {
        &&& self.index.well_formed()
        &&& forall|a: u64, b: u64| #[trigger] self.index.shares_slot(a, b) <==> a == b
        &&& forall|k: u64| #[trigger] self.index.lookup(k) matches Some(i) ==> i < self.histories.len()
            && self.histories@[i as int].key == k
        &&& forall|i: int| 0 <= i < self.histories.len() ==> self.index.lookup(
            #[trigger] self.histories@[i].key,
        ) == Some(i as usize)
        &&& forall|k: u64, j: int| 0 <= j < self.history(k).len() ==> is_consolidated(
            #[trigger] self.history(k)[j].1,
        )
    }

    /// The entries installed for key `k`.
    pub closed spec fn history(&self, k: u64) -> Seq<(Time, Seq<(u64, i64)>)> {
        match self.index.lookup(k) {
            Some(i) => if i < self.histories.len() {
                entries_view(self.histories@[i as int].entries@)
            } else {
                Seq::empty()
            },
            None => Seq::empty(),
        }
    }

    pub fn new() -> (r: Self)
        ensures
            r.well_formed(),
            forall|k: u64| #[trigger] r.history(k).len() == 0,
    {
        Trace { index: L::new(), histories: Vec::new() }
    }

    /// The consolidated net differences of `key` as of `time`: all its
    /// entries at times at or before `time`, merged. `None` exactly when the
    /// running merge leaves the weight range.
    pub fn collection(&self, key: u64, time: &Time) -> (r: Option<Vec<(u64, i64)>>)
        requires
            self.well_formed(),
        ensures
            r is Some <==> acc_fits(self.history(key), *time),
            r matches Some(m) ==> is_consolidated(m@),
            r matches Some(m) ==> forall|v: u64| #[trigger] weight_of(m@, v) == acc_weight(
                self.history(key),
                *time,
                v,
            ),
        r matches Some(m) ==> m@ == collection_of(self.history(key), *time),
    {
        let r = self.collection_merged(key, time);
        proof {
            if r is Some {
                let m = r->0@;
                let c = collection_of(self.history(key), *time);
                assert(is_consolidated(m) && forall|v: u64| #[trigger] weight_of(m, v) == acc_weight(self.history(key), *time, v));
                lemma_consolidated_unique(m, c);
            }
        }
        r
    }

    fn collection_merged(&self, key: u64, time: &Time) -> (r: Option<Vec<(u64, i64)>>)
        requires
            self.well_formed(),
        ensures
            r is Some <==> acc_fits(self.history(key), *time),
            r matches Some(m) ==> is_consolidated(m@),
            r matches Some(m) ==> forall|v: u64| #[trigger] weight_of(m@, v) == acc_weight(
                self.history(key),
                *time,
                v,
            ),
    {
        let ghost h = self.history(key);
        let mut acc: Vec<(u64, i64)> = Vec::new();
        match self.find(key) {
            None => {
                proof {
                    assert forall|n: int, v: u64| 0 <= n <= h.len() implies weight_in_range(
                        #[trigger] acc_weight(h.take(n), *time, v)) by {
                        assert(h.take(n).len() == 0);
                    }
                }
                Some(acc)
            },
            Some(i) => {
                let entries = &self.histories[i].entries;
                proof { assert(h == entries_view(entries@)); }
                let mut j: usize = 0;
                while j < entries.len()
                    invariant
                        self.well_formed(),
                        h == self.history(key),
                        h == entries_view(entries@),
                        j <= entries.len(),
                        is_consolidated(acc@),
                        forall|v: u64| #[trigger] weight_of(acc@, v) == acc_weight(h.take(j as int), *time, v),
                        forall|n: int, v: u64|
                            0 <= n <= j ==> weight_in_range(#[trigger] acc_weight(h.take(n), *time, v)),
                    decreases entries.len() - j,
                {
                    proof {
                        lemma_acc_take(h, *time, j as int);
                        assert(is_consolidated(self.history(key)[j as int].1));
                    }
                    if entries[j].0.less_equal(time) {
                        proof {
                            crate::coalesce::lemma_consolidated_sorted(acc@);
                            crate::coalesce::lemma_consolidated_sorted(entries@[j as int].1@);
                        }
                        match coalesce(&acc, &entries[j].1) {
                            None => {
                                proof {
                                    let x = choose|x: u64| !weight_in_range(#[trigger] weight_of(acc@, x) + weight_of(entries@[j as int].1@, x));
                                    assert(!weight_in_range(acc_weight(h.take(j + 1), *time, x)));
                                }
                                return None;
                            },
                            Some(m) => {
                                acc = m;
                            },
                        }
                    }
                    proof {
                        assert forall|n: int, v: u64|
                            0 <= n <= j + 1 implies weight_in_range(#[trigger] acc_weight(h.take(n), *time, v)) by {
                            if n == j + 1 {
                                lemma_weight_consolidated(acc@, v);
                            }
                        }
                    }
                    j = j + 1;
                }
                proof { assert(h.take(h.len() as int) =~= h); }
                Some(acc)
            },
        }
    }

    /// The times at which the collection of `key` may change now that it has
    /// new differences at `time`: `time` itself, first, and its join with
    /// every time on record for `key`, each once.
    pub fn interesting_times(&self, key: u64, time: &Time) -> (r: Vec<Time>)
        requires
            self.well_formed(),
        ensures
            r@.len() > 0,
            r@[0] == *time,
            r@.no_duplicates(),
            forall|x: Time| r@.contains(x) <==> (x == *time || exists|j: int|
                0 <= j < self.history(key).len() && x == #[trigger] time_join(*time, self.history(key)[j].0)),
    {
        let ghost h = self.history(key);
        let mut r: Vec<Time> = Vec::new();
        r.push(*time);
        proof {
            assert(r@ =~= seq![*time]);
            assert forall|x: Time| r@.contains(x) <==> x == *time by {
                if r@.contains(x) { let k = choose|k: int| 0 <= k < r@.len() && r@[k] == x; }
                if x == *time { assert(r@[0] == x); }
            }
        }
        match self.find(key) {
            None => {
                r
            },
            Some(i) => {
                let entries = &self.histories[i].entries;
                proof { assert(h == entries_view(entries@)); }
                let mut j: usize = 0;
                while j < entries.len()
                    invariant
                        h == entries_view(entries@),
                        j <= entries.len(),
                        r@.len() > 0,
                        r@[0] == *time,
                        r@.no_duplicates(),
                        forall|x: Time| r@.contains(x) <==> (x == *time || exists|jj: int|
                            0 <= jj < j && x == #[trigger] time_join(*time, h[jj].0)),
                    decreases entries.len() - j,
                {
                    let t = time.join(&entries[j].0);
                    let ghost before = r@;
                    if !contains_time(&r, &t) {
                        r.push(t);
                        proof {
                            assert forall|x: Time| r@.contains(x) <==> before.contains(x) || x == t by {
                                if r@.contains(x) {
                                    let k = choose|k: int| 0 <= k < r@.len() && r@[k] == x;
                                    if k < before.len() { assert(before[k] == x); }
                                }
                                if before.contains(x) {
                                    let k = choose|k: int| 0 <= k < before.len() && before[k] == x;
                                    assert(r@[k] == x);
                                }
                                if x == t { assert(r@[before.len() as int] == x); }
                            }
                        }
                    }
                    proof {
                        assert(time_join(*time, h[j as int].0) == t);
                        assert(forall|x: Time| r@.contains(x) <==> before.contains(x) || x == t);
                        assert forall|x: Time| r@.contains(x) <==> (x == *time || exists|jj: int|
                            0 <= jj < j + 1 && x == #[trigger] time_join(*time, h[jj].0)) by {
                            assert(r@.contains(x) <==> before.contains(x) || x == t);
                            assert(before.contains(x) <==> (x == *time || exists|jj: int|
                                0 <= jj < j && x == #[trigger] time_join(*time, h[jj].0)));
                            if exists|jj: int| 0 <= jj < j + 1 && x == #[trigger] time_join(*time, h[jj].0) {
                                let jj = choose|jj: int| 0 <= jj < j + 1 && x == #[trigger] time_join(*time, h[jj].0);
                                if jj < j {} else { assert(x == t); }
                            }
                            if x == t {
                                assert(x == time_join(*time, h[j as int].0));
                            }
                        }
                    }
                    j = j + 1;
                }
                r
            },
        }
    }

    /// Installs one time's differences: each key that `compact` names gets
    /// the entry `(time, its differences)` appended; no other key changes.
    pub fn set_difference(&mut self, time: Time, compact: Compact)
        requires
            old(self).well_formed(),
            compact.well_formed(),
        ensures
            final(self).well_formed(),
            forall|k: u64| #[trigger] final(self).history(k) == if compact.group(k).len() > 0 {
                old(self).history(k).push((time, compact.group(k)))
            } else {
                old(self).history(k)
            },
    {
        let ghost orig = compact.groups@;
        let mut groups = compact.groups;
        while groups.len() > 0
            invariant
                self.well_formed(),
                groups_well_formed(groups@),
                forall|k: u64| #[trigger] group_of(groups@, k).len() > 0 ==> group_of(groups@, k) == group_of(orig, k),
                forall|k: u64| #[trigger] self.history(k) == if group_of(orig, k).len() > 0
                    && group_of(groups@, k).len() == 0 {
                    old(self).history(k).push((time, group_of(orig, k)))
                } else {
                    old(self).history(k)
                },
            decreases groups.len(),
        {
            let ghost g0 = groups@;
            let ghost before = *self;
            let (key, g) = groups.pop().unwrap();
            proof {
                let n = g0.len() - 1;
                assert(g0.drop_last() =~= groups@);
                lemma_group_present(g0, n);
                assert(groups_well_formed(groups@)) by {
                    assert forall|a: int, b: int| 0 <= a < b < groups@.len() implies #[trigger] groups@[a].0
                        < #[trigger] groups@[b].0 by {
                        assert(g0[a].0 < g0[b].0);
                    }
                    assert forall|a: int| 0 <= a < groups@.len() implies is_consolidated(#[trigger] groups@[a].1@)
                        && groups@[a].1@.len() > 0 by {
                        assert(groups@[a] == g0[a]);
                    }
                }
                assert forall|a: int| 0 <= a < groups@.len() implies #[trigger] groups@[a].0 != key by {
                    assert(g0[a].0 < g0[n].0);
                }
                lemma_group_absent(groups@, key);
                assert(g0[n].1@.len() > 0);
                assert(is_consolidated(g@));
            }
            self.append(key, time, g);
            proof {
                assert forall|k: u64| #[trigger] group_of(groups@, k).len() > 0 implies group_of(groups@, k) == group_of(orig, k) by {
                    assert(group_of(g0, k) == if g0.last().0 == k { g0.last().1@ } else { group_of(groups@, k) });
                }
                assert forall|k: u64| #[trigger] self.history(k) == if group_of(orig, k).len() > 0
                    && group_of(groups@, k).len() == 0 {
                    old(self).history(k).push((time, group_of(orig, k)))
                } else {
                    old(self).history(k)
                } by {
                    assert(group_of(g0, k) == if g0.last().0 == k { g0.last().1@ } else { group_of(groups@, k) });
                    assert(before.history(k) == if group_of(orig, k).len() > 0 && group_of(g0, k).len() == 0 {
                        old(self).history(k).push((time, group_of(orig, k)))
                    } else {
                        old(self).history(k)
                    });
                }
            }
        }
        proof {
            assert forall|k: u64| #[trigger] self.history(k) == if group_of(orig, k).len() > 0 {
                old(self).history(k).push((time, group_of(orig, k)))
            } else {
                old(self).history(k)
            } by {
                assert(group_of(groups@, k).len() == 0);
            }
        }
    }

    /// Appends `(time, diffs)` to the history of `key`.
    fn append(&mut self, key: u64, time: Time, diffs: Vec<(u64, i64)>)
        requires
            old(self).well_formed(),
            is_consolidated(diffs@),
        ensures
            final(self).well_formed(),
            forall|k: u64| #[trigger] final(self).history(k) == if k == key {
                old(self).history(k).push((time, diffs@))
            } else {
                old(self).history(k)
            },
    {
        let ghost d = diffs@;
        match self.find(key) {
            Some(i) => {
                let ghost hs = self.histories@;
                let h = history_mut(&mut self.histories, i);
                let ghost e0 = h.entries@;
                h.entries.push((time, diffs));
                proof {
                    let hs2 = self.histories@;
                    assert(entries_view(hs2[i as int].entries@) =~= entries_view(e0).push((time, d)));
                    assert forall|k: u64| #[trigger] self.history(k) == if k == key {
                        old(self).history(k).push((time, d))
                    } else {
                        old(self).history(k)
                    } by {
                        if k != key {
                            if let Some(i2) = self.index.lookup(k) {
                                assert(hs2[i2 as int] == hs[i2 as int]);
                            }
                        }
                    }
                    assert forall|i2: int| 0 <= i2 < hs2.len() implies self.index.lookup(
                        #[trigger] hs2[i2].key) == Some(i2 as usize) by {
                        assert(hs2[i2].key == hs[i2].key);
                    }
                }
            },
            None => {
                let i = self.histories.len();
                let ghost hs = self.histories@;
                let ghost ix = self.index;
                let mut entries: Vec<(Time, Vec<(u64, i64)>)> = Vec::new();
                entries.push((time, diffs));
                self.histories.push(History { key, entries });
                let slot = self.index.entry_or_insert(key, move || -> (r: usize) ensures r == i { i });
                proof {
                    let hs2 = self.histories@;
                    assert(entries_view(hs2[i as int].entries@) =~= seq![(time, d)]);
                    assert(Seq::<(Time, Seq<(u64, i64)>)>::empty().push((time, d)) =~= seq![(time, d)]);
                }
                let _ = slot;
                proof {
                    let hs2 = self.histories@;
                    assert forall|k: u64| #[trigger] self.history(k) == if k == key {
                        old(self).history(k).push((time, d))
                    } else {
                        old(self).history(k)
                    } by {
                        if k != key {
                            if let Some(i2) = ix.lookup(k) {
                                assert(hs2[i2 as int] == hs[i2 as int]);
                            }
                        }
                    }
                    assert forall|i2: int| 0 <= i2 < hs2.len() implies self.index.lookup(
                        #[trigger] hs2[i2].key) == Some(i2 as usize) by {
                        if i2 < hs.len() {
                            assert(hs2[i2] == hs[i2]);
                            assert(ix.lookup(hs[i2].key) == Some(i2 as usize));
                        }
                    }
                }
            },
        }
    }

    fn find(&self, key: u64) -> (r: Option<usize>)
        requires
            self.well_formed(),
        ensures
            r == self.index.lookup(key),
    {
        match self.index.get_ref(&key) {
            Some(i) => Some(*i),
            None => None,
        }
    }
}

/// The history at `i`, to be written in place.
fn history_mut(v: &mut Vec<History>, i: usize) -> (r: &mut History)
    requires
        i < old(v).len(),
    ensures
        *r == old(v)@[i as int],
        final(v)@ == old(v)@.update(i as int, *final(r)),
{
    &mut v[i]
}

/// Whether `t` is among `r`.
fn contains_time(r: &Vec<Time>, t: &Time) -> (b: bool)
    ensures
        b <==> r@.contains(*t),
{
    let mut i: usize = 0;
    while i < r.len()
        invariant
            i <= r.len(),
            forall|k: int| 0 <= k < i ==> r@[k] != *t,
        decreases r.len() - i,
    {
        if r[i] == *t {
            return true;
        }
        i = i + 1;
    }
    false
}

} // verus!
