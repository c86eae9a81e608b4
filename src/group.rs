use vstd::prelude::*;
use crate::coalesce::{coalesce, consolidate, is_consolidated, list_fits, negate, negated, sums_fit, weight_of};
use crate::compact::{batch_delta, group_of, groups_well_formed, lemma_group_absent, lemma_group_present, update_weight, updates_fit, Compact};
use crate::coalesce::{lemma_consolidated_unique, lemma_weight_consolidated};
use crate::lookup::{first_index, Lookup};
use crate::worklist::{add_pending, copy_pending, lemma_push_contains, pending_keys, pending_well_formed, stage, staged_updates, strictly_sorted, take_pending, times_unique, unstage};
use crate::time::{time_join, time_le, Time};
use crate::trace::{acc_fits, acc_weight, collection_of, Trace};

verus! {

/// The reduction applied to each key's collection: from the key and its
/// consolidated `(value, weight)` list, nonempty and sorted by value, a list
/// of `(output value, weight)` in any order.
pub trait Reduce {
    spec fn spec_reduce(&self, key: u64, input: Seq<(u64, i64)>) -> Seq<(u64, i64)>;

    fn reduce(&self, key: u64, input: &Vec<(u64, i64)>) -> (r: Vec<(u64, i64)>)
        requires
            is_consolidated(input@),
            input@.len() > 0,
        ensures
            r@ == self.spec_reduce(key, input@),
    ;
}

/// The greatest value of positive weight, if any.
pub open spec fn max_present(input: Seq<(u64, i64)>) -> Option<u64>
    decreases input.len(),
{
    if input.len() == 0 {
        None
    } else if input.last().1 > 0 {
        Some(input.last().0)
    } else {
        max_present(input.drop_last())
    }
}

/// Emits the greatest value present (of positive weight) once.
pub struct MaxValue;

impl Reduce for MaxValue {
    open spec fn spec_reduce(&self, key: u64, input: Seq<(u64, i64)>) -> Seq<(u64, i64)> {
        match max_present(input) {
            Some(v) => seq![(v, 1i64)],
            None => seq![],
        }
    }

    fn reduce(&self, key: u64, input: &Vec<(u64, i64)>) -> (r: Vec<(u64, i64)>) {
        let mut i: usize = input.len();
        proof { assert(input@.take(input@.len() as int) =~= input@); }
        while i > 0
            invariant
                i <= input.len(),
                max_present(input@) == max_present(input@.take(i as int)),
            decreases i,
        {
            proof { assert(input@.take(i as int).drop_last() =~= input@.take(i - 1)); }
            if input[i - 1].1 > 0 {
                let mut r: Vec<(u64, i64)> = Vec::new();
                r.push((input[i - 1].0, 1));
                proof { assert(r@ =~= seq![(input@[i - 1].0, 1i64)]); }
                return r;
            }
            i = i - 1;
        }
        proof { assert(max_present(input@.take(0)) is None); }
        let r: Vec<(u64, i64)> = Vec::new();
        proof { assert(r@ =~= seq![]); }
        r
    }
}

/// The operator with a hash table from keys to their histories.
pub type Group = GroupBy<std::collections::HashMap<u64, usize>>;

/// The operator for dense unsigned keys, with a dense array from keys to
/// their histories.
pub type GroupUnsigned = GroupBy<(Vec<Option<usize>>, u64)>;

/// A weight left the representable range.
#[derive(Debug, Clone, Copy, PartialEq, Eq, Structural)]
pub enum GroupError {
    Overflow,
}

/// The net weight of `v` in the output that `logic` asks for, for `key`
/// whose input collection is `input`; no output when the input is empty.
pub open spec fn target_weight<R: Reduce>(logic: &R, key: u64, input: Seq<(u64, i64)>, v: u64) -> int {
    if input.len() == 0 {
        0
    } else {
        weight_of(logic.spec_reduce(key, input), v)
    }
}

/// The output differences of `key` at `time`: the consolidated list whose
/// net weights bring the output recorded as of `time` (`res`) to what
/// `logic` asks for on the input as of `time` (`src`).
pub open spec fn key_delta<R: Reduce>(
    logic: &R,
    src: Seq<(Time, Seq<(u64, i64)>)>,
    res: Seq<(Time, Seq<(u64, i64)>)>,
    key: u64,
    time: Time,
) -> Seq<(u64, i64)> {
    choose|d: Seq<(u64, i64)>| is_consolidated(d) && forall|v: u64| #[trigger] weight_of(d, v)
        == target_weight(logic, key, collection_of(src, time), v) - acc_weight(res, time, v)
}

/// The differences `d` of `key` as `(key, value, weight)` records.
pub open spec fn tagged(key: u64, d: Seq<(u64, i64)>) -> Seq<(u64, u64, i64)> {
    Seq::new(d.len(), |i: int| (key, d[i].0, d[i].1))
}

/// The input and output histories of every key, as spec functions.
pub type Histories = spec_fn(u64) -> Seq<(Time, Seq<(u64, i64)>)>;

/// What reconsidering `keys` in order at `time` emits, given the input
/// histories `src` and the output histories `res`.
pub open spec fn emitted_seq<R: Reduce>(src: Histories, res: Histories, logic: &R, time: Time, keys: Seq<u64>) -> Seq<(u64, u64, i64)>
    decreases keys.len(),
{
    if keys.len() == 0 {
        Seq::empty()
    } else {
        emitted_seq(src, res, logic, time, keys.drop_last()) + tagged(
            keys.last(),
            key_delta(logic, src(keys.last()), res(keys.last()), keys.last(), time),
        )
    }
}

/// The differences that bring the recorded output of `key` at `time` to
/// what `logic` asks for on its current input.
fn recompute_key<L: Lookup<u64, usize>, R: Reduce>(
    source: &Trace<L>,
    result: &Trace<L>,
    key: u64,
    time: &Time,
    logic: &R,
) -> (r: Result<Vec<(u64, i64)>, GroupError>)
    requires
        source.well_formed(),
        result.well_formed(),
    ensures
        r matches Ok(d) ==> is_consolidated(d@),
        r matches Ok(d) ==> forall|v: u64| #[trigger] weight_of(d@, v) == target_weight(
            logic,
            key,
            collection_of(source.history(key), *time),
            v,
        ) - acc_weight(result.history(key), *time, v),
        r matches Ok(d) ==> d@ == key_delta(logic, source.history(key), result.history(key), key, *time),
        r is Err <==> key_overflows(logic, source.history(key), result.history(key), key, *time),
{
    let r = recompute_key_merge(source, result, key, time, logic);
    proof {
        if r is Ok {
            let d = r->Ok_0@;
            let c = key_delta(logic, source.history(key), result.history(key), key, *time);
            assert(is_consolidated(d) && forall|v: u64| #[trigger] weight_of(d, v)
                == target_weight(logic, key, collection_of(source.history(key), *time), v) - acc_weight(result.history(key), *time, v));
            lemma_consolidated_unique(d, c);
        }
    }
    r
}

/// The consolidated list with the net weights of `s`.
pub open spec fn consolidated_of(s: Seq<(u64, i64)>) -> Seq<(u64, i64)> {
    choose|m: Seq<(u64, i64)>| is_consolidated(m) && forall|v: u64| #[trigger] weight_of(m, v) == weight_of(s, v)
}

/// Whether reconsidering `key` at `time` leaves the weight range: in
/// accumulating its input, in the reduction's output, in accumulating its
/// recorded output, or in the difference of the two outputs.
pub open spec fn key_overflows<R: Reduce>(
    logic: &R,
    src: Seq<(Time, Seq<(u64, i64)>)>,
    res: Seq<(Time, Seq<(u64, i64)>)>,
    key: u64,
    time: Time,
) -> bool {
    let input = collection_of(src, time);
    let candidate = if input.len() > 0 {
        consolidated_of(logic.spec_reduce(key, input))
    } else {
        Seq::empty()
    };
    ||| !acc_fits(src, time)
    ||| (input.len() > 0 && !list_fits(logic.spec_reduce(key, input)))
    ||| !acc_fits(res, time)
    ||| !sums_fit(negated(collection_of(res, time)), candidate)
}

fn recompute_key_merge<L: Lookup<u64, usize>, R: Reduce>(
    source: &Trace<L>,
    result: &Trace<L>,
    key: u64,
    time: &Time,
    logic: &R,
) -> (r: Result<Vec<(u64, i64)>, GroupError>)
    requires
        source.well_formed(),
        result.well_formed(),
    ensures
        r matches Ok(d) ==> is_consolidated(d@),
        r matches Ok(d) ==> forall|v: u64| #[trigger] weight_of(d@, v) == target_weight(
            logic,
            key,
            collection_of(source.history(key), *time),
            v,
        ) - acc_weight(result.history(key), *time, v),
        r is Err <==> key_overflows(logic, source.history(key), result.history(key), key, *time),
{
    let input = match source.collection(key, time) {
        Some(m) => m,
        None => return Err(GroupError::Overflow),
    };
    let candidate = if input.len() > 0 {
        let produced = logic.reduce(key, &input);
        match consolidate(&produced) {
            Some(c) => {
                proof {
                    let want = consolidated_of(produced@);
                    assert(is_consolidated(c@) && forall|v: u64| #[trigger] weight_of(c@, v) == weight_of(produced@, v));
                    lemma_consolidated_unique(c@, want);
                }
                c
            },
            None => return Err(GroupError::Overflow),
        }
    } else {
        Vec::new()
    };
    proof {
        assert(candidate@ == if input@.len() > 0 {
            consolidated_of(logic.spec_reduce(key, input@))
        } else {
            Seq::empty()
        });
    }
    let previous = match result.collection(key, time) {
        Some(m) => m,
        None => return Err(GroupError::Overflow),
    };
    let retract = negate(&previous);
    proof {
        crate::coalesce::lemma_consolidated_sorted(retract@);
        crate::coalesce::lemma_consolidated_sorted(candidate@);
    }
    match coalesce(&retract, &candidate) {
        Some(d) => Ok(d),
        None => Err(GroupError::Overflow),
    }
}

/// Whether a batch of updates has a nonzero net weight for some value of `k`.
pub open spec fn touches(batch: Seq<(u64, u64, i64)>, k: u64) -> bool {
    exists|v: u64| #[trigger] update_weight(batch, k, v) != 0
}

/// The state of the group operator on one worker: the input and output
/// traces and, per time, the keys to reconsider at that time.
pub struct GroupBy<L> {
    source: Trace<L>,
    result: Trace<L>,
    pending: Vec<(Time, Vec<u64>)>,
    staged: Vec<(Time, Vec<(u64, u64, i64)>)>,
}

impl<L: Lookup<u64, usize>> GroupBy<L> {
    pub closed spec fn well_formed(&self) -> bool {
        &&& self.source.well_formed()
        &&& self.result.well_formed()
        &&& pending_well_formed(self.pending@)
        &&& times_unique(self.staged@)
    }

    /// The updates delivered for time `t` and not yet processed.
    pub closed spec fn staged_at(&self, t: Time) -> Seq<(u64, u64, i64)> {
        staged_updates(self.staged@, t)
    }

    /// The input differences installed for key `k`.
    pub closed spec fn source_history(&self, k: u64) -> Seq<(Time, Seq<(u64, i64)>)> {
        self.source.history(k)
    }

    /// The output differences installed for key `k`.
    pub closed spec fn result_history(&self, k: u64) -> Seq<(Time, Seq<(u64, i64)>)> {
        self.result.history(k)
    }

    /// The keys to reconsider at time `t`.
    pub closed spec fn pending_at(&self, t: Time) -> Seq<u64> {
        pending_keys(self.pending@, t)
    }

    pub fn new() -> (r: Self)
        ensures
            r.well_formed(),
            forall|k: u64| #[trigger] r.source_history(k).len() == 0,
            forall|k: u64| #[trigger] r.result_history(k).len() == 0,
            forall|t: Time| #[trigger] r.pending_at(t).len() == 0,
            forall|t: Time| #[trigger] r.staged_at(t).len() == 0,
    {
        let r = GroupBy { source: Trace::new(), result: Trace::new(), pending: Vec::new(), staged: Vec::new() };
        proof {
            assert forall|t: Time| #[trigger] r.staged_at(t).len() == 0 by {
                assert(first_index(r.staged@, t) is None);
            }
            assert forall|t: Time| #[trigger] r.pending_at(t).len() == 0 by {
                assert(first_index(r.pending@, t) is None);
            }
        }
        r
    }

    /// Installs the updates of one finished time into the input trace, and
    /// puts each key they touch on the work-list of every time at which its
    /// collection may change. Returns the times, other than `time`, that had
    /// no work before and have some now.
    ///
    /// The times to schedule come from the key's input history: its input
    /// collection, and so the reduction's answer, can change at `time` and at
    /// the join of `time` with every time at which the key had input before.
    /// Joining with the output history instead would miss the times where
    /// earlier input that produced no output meets the new input.
    pub fn ingest(&mut self, time: Time, batch: &Vec<(u64, u64, i64)>) -> (r: Result<Vec<Time>, GroupError>)
        requires
            old(self).well_formed(),
        ensures
            final(self).well_formed(),
            r is Err <==> !updates_fit(batch@),
            forall|t: Time| #[trigger] final(self).staged_at(t) == old(self).staged_at(t),
            r is Err ==> *final(self) == *old(self),
            r is Ok ==> forall|k: u64, t: Time, v: u64| #[trigger] acc_weight(final(self).source_history(k), t, v)
                == acc_weight(old(self).source_history(k), t, v) + if time_le(time, t) {
                    update_weight(batch@, k, v)
                } else {
                    0
                },
            r is Ok ==> forall|k: u64| #[trigger] final(self).result_history(k) == old(self).result_history(k),
            r is Ok ==> forall|k: u64| #[trigger] final(self).source_history(k) == if touches(batch@, k) {
                old(self).source_history(k).push((time, batch_delta(batch@, k)))
            } else {
                old(self).source_history(k)
            },
            r is Ok ==> forall|t: Time, k: u64| #[trigger] final(self).pending_at(t).contains(k) <==> old(self).pending_at(t).contains(k)
                || (touches(batch@, k) && (t == time || exists|j: int| 0 <= j < old(self).source_history(k).len()
                    && t == #[trigger] time_join(time, old(self).source_history(k)[j].0))),
            r matches Ok(w) ==> forall|t: Time| #[trigger] w@.contains(t) <==> t != time
                && old(self).pending_at(t).len() == 0 && final(self).pending_at(t).len() > 0,
    {
        let compact = match Compact::from_updates(batch) {
            Some(c) => c,
            None => return Err(GroupError::Overflow),
        };
        let ghost c = compact;
        let mut wake: Vec<Time> = Vec::new();
        let mut i: usize = 0;
        while i < compact.groups.len()
            invariant
                c == compact,
                compact.well_formed(),
                forall|k: u64, v: u64| #[trigger] weight_of(compact.group(k), v) == update_weight(batch@, k, v),
                i <= compact.groups.len(),
                self.source == old(self).source,
                self.result == old(self).result,
                self.staged == old(self).staged,
                self.source.well_formed(),
                pending_well_formed(self.pending@),
                forall|t: Time, k: u64| #[trigger] pending_keys(self.pending@, t).contains(k) <==> pending_keys(old(self).pending@, t).contains(k)
                    || ((exists|g: int| 0 <= g < i && compact.groups@[g].0 == k) && (t == time || exists|j: int| 0 <= j < old(self).source.history(k).len()
                    && t == #[trigger] time_join(time, old(self).source.history(k)[j].0))),
                forall|t: Time| #[trigger] wake@.contains(t) <==> t != time
                    && pending_keys(old(self).pending@, t).len() == 0 && pending_keys(self.pending@, t).len() > 0,
            decreases compact.groups.len() - i,
        {
            let key = compact.groups[i].0;
            let times = self.source.interesting_times(key, &time);
            let mut j: usize = 0;
            while j < times.len()
                invariant
                    c == compact,
                    compact.well_formed(),
                    i < compact.groups.len(),
                    key == compact.groups@[i as int].0,
                    j <= times.len(),
                    self.source == old(self).source,
                    self.result == old(self).result,
                    self.staged == old(self).staged,
                    self.source.well_formed(),
                    pending_well_formed(self.pending@),
                    forall|x: Time| times@.contains(x) <==> (x == time || exists|jj: int|
                        0 <= jj < self.source.history(key).len() && x == #[trigger] time_join(time, self.source.history(key)[jj].0)),
                    forall|t: Time, k: u64| #[trigger] pending_keys(self.pending@, t).contains(k) <==> pending_keys(old(self).pending@, t).contains(k)
                        || ((exists|g: int| 0 <= g < i && compact.groups@[g].0 == k) && (t == time || exists|jx: int| 0 <= jx < old(self).source.history(k).len()
                        && t == #[trigger] time_join(time, old(self).source.history(k)[jx].0)))
                        || (k == key && times@.take(j as int).contains(t)),
                    forall|t: Time| #[trigger] wake@.contains(t) <==> t != time
                        && pending_keys(old(self).pending@, t).len() == 0 && pending_keys(self.pending@, t).len() > 0,
                decreases times.len() - j,
            {
                let t2 = times[j];
                let ghost p0 = self.pending@;
                let fresh = add_pending(&mut self.pending, t2, key);
                let ghost w0 = wake@;
                if fresh && t2 != time {
                    wake.push(t2);
                }
                proof {
                    assert forall|t: Time| #[trigger] wake@.contains(t) <==> w0.contains(t) || (fresh && t2 != time && t == t2) by {
                        if fresh && t2 != time { lemma_push_contains(w0, t2, t); }
                    }
                }
                proof {
                    let tk = times@.take(j as int);
                    assert(times@.take(j + 1) =~= tk.push(t2));
                    assert forall|t: Time| #[trigger] tk.push(t2).contains(t) <==> tk.contains(t) || t == t2 by {
                        lemma_push_contains(tk, t2, t);
                    }
                    assert forall|t: Time| #[trigger] wake@.contains(t) <==> t != time
                        && pending_keys(old(self).pending@, t).len() == 0 && pending_keys(self.pending@, t).len() > 0 by {
                        let o = pending_keys(old(self).pending@, t);
                        let a = pending_keys(p0, t);
                        let b = pending_keys(self.pending@, t);
                        if o.len() > 0 {
                            assert(o.contains(o[0]));
                            assert(a.contains(o[0]));
                        }
                        if t == t2 {
                            assert(b.contains(key));
                        } else {
                            if a.len() > 0 {
                                assert(a.contains(a[0]));
                                assert(b.contains(a[0]));
                            }
                            if b.len() > 0 {
                                assert(b.contains(b[0]));
                                assert(a.contains(b[0]));
                            }
                        }
                    }
                }
                j = j + 1;
            }
            proof {
                assert(times@.take(times@.len() as int) =~= times@);
            }
            i = i + 1;
        }
        proof {
            assert forall|k: u64| #[trigger] touches(batch@, k) <==> exists|g: int| 0 <= g < c.groups@.len() && c.groups@[g].0 == k by {
                lemma_touches(c, batch@, k);
            }
        }
        let ghost pend = self.pending@;
        self.source.set_difference(time, compact);
        proof {
            assert(self.pending@ == pend);
            assert forall|t: Time, k: u64| #[trigger] self.pending_at(t).contains(k) <==> old(self).pending_at(t).contains(k)
                || (touches(batch@, k) && (t == time || exists|j: int| 0 <= j < old(self).source_history(k).len()
                    && t == #[trigger] time_join(time, old(self).source_history(k)[j].0))) by {
                assert(pending_keys(pend, t).contains(k) <==> pending_keys(old(self).pending@, t).contains(k)
                    || ((exists|g: int| 0 <= g < c.groups@.len() && c.groups@[g].0 == k) && (t == time || exists|j: int| 0 <= j < old(self).source.history(k).len()
                    && t == #[trigger] time_join(time, old(self).source.history(k)[j].0))));
                lemma_touches(c, batch@, k);
                assert(old(self).source_history(k) == old(self).source.history(k));
                assert(self.pending_at(t) == pending_keys(pend, t));
                if exists|j: int| 0 <= j < old(self).source.history(k).len() && t == #[trigger] time_join(time, old(self).source.history(k)[j].0) {
                    let j = choose|j: int| 0 <= j < old(self).source.history(k).len() && t == #[trigger] time_join(time, old(self).source.history(k)[j].0);
                    assert(t == time_join(time, old(self).source_history(k)[j].0));
                }
                if exists|j: int| 0 <= j < old(self).source_history(k).len() && t == #[trigger] time_join(time, old(self).source_history(k)[j].0) {
                    let j = choose|j: int| 0 <= j < old(self).source_history(k).len() && t == #[trigger] time_join(time, old(self).source_history(k)[j].0);
                    assert(t == time_join(time, old(self).source.history(k)[j].0));
                }
            }
            assert forall|k: u64, t: Time, v: u64| #[trigger] acc_weight(self.source.history(k), t, v)
                == acc_weight(old(self).source.history(k), t, v) + if time_le(time, t) {
                    update_weight(batch@, k, v)
                } else {
                    0
                } by {
                let h = old(self).source.history(k);
                if c.group(k).len() > 0 {
                    assert(h.push((time, c.group(k))).drop_last() =~= h);
                } else {
                    assert(weight_of(c.group(k), v) == 0);
                }
            }
            assert forall|k: u64| #[trigger] self.source.history(k) == if touches(batch@, k) {
                old(self).source.history(k).push((time, batch_delta(batch@, k)))
            } else {
                old(self).source.history(k)
            } by {
                lemma_touches(c, batch@, k);
                if touches(batch@, k) {
                    let g = choose|g: int| 0 <= g < c.groups@.len() && c.groups@[g].0 == k;
                    lemma_group_present(c.groups@, g);
                    assert(c.group(k).len() > 0);
                    let bd = batch_delta(batch@, k);
                    assert(is_consolidated(c.group(k)) && forall|v: u64| #[trigger] weight_of(c.group(k), v) == update_weight(batch@, k, v));
                    lemma_consolidated_unique(c.group(k), bd);
                } else {
                    lemma_group_absent(c.groups@, k);
                }
            }
        }
        Ok(wake)
    }

    /// Reconsiders every key waiting for `time`: brings the recorded output
    /// of each to what `logic` asks for on its input as of `time`, records
    /// the differences in the output trace, and returns them as
    /// `(key, value, weight)` records. The work-list of `time` is emptied.
    #[verifier::rlimit(40)]
    pub fn recompute<R: Reduce>(&mut self, time: Time, logic: &R) -> (r: Result<Vec<(u64, u64, i64)>, GroupError>)
        requires
            old(self).well_formed(),
        ensures
            final(self).well_formed(),
            forall|k: u64| #[trigger] final(self).source_history(k) == old(self).source_history(k),
            forall|t: Time| #[trigger] final(self).staged_at(t) == old(self).staged_at(t),
            r is Err ==> *final(self) == *old(self),
            r is Err <==> exists|k: u64| old(self).pending_at(time).contains(k) && #[trigger] key_overflows(
                logic,
                old(self).source_history(k),
                old(self).result_history(k),
                k,
                time,
            ),
            r is Ok ==> final(self).pending_at(time).len() == 0,
            r is Ok ==> forall|t: Time| t != time ==> #[trigger] final(self).pending_at(t) == old(self).pending_at(t),
            r is Ok ==> forall|k: u64| !old(self).pending_at(time).contains(k) ==> #[trigger] final(self).result_history(k)
                == old(self).result_history(k),
            r is Ok ==> forall|k: u64| #[trigger] final(self).result_history(k) == old(self).result_history(k)
                || final(self).result_history(k) == old(self).result_history(k).push((time, final(self).result_history(k).last().1)),
            r is Ok ==> forall|k: u64, v: u64| old(self).pending_at(time).contains(k) ==> #[trigger] acc_weight(final(self).result_history(k), time, v)
                == target_weight(logic, k, collection_of(old(self).source_history(k), time), v),
            r matches Ok(out) ==> forall|k: u64, v: u64| #[trigger] update_weight(out@, k, v) == acc_weight(final(self).result_history(k), time, v)
                - acc_weight(old(self).result_history(k), time, v),
            r matches Ok(out) ==> (old(self).pending_at(time).len() == 0 ==> out@.len() == 0),
            r matches Ok(out) ==> out@ == emitted_seq(
                |k: u64| old(self).source_history(k),
                |k: u64| old(self).result_history(k),
                logic,
                time,
                old(self).pending_at(time),
            ),
            r is Ok ==> forall|k: u64| #[trigger] final(self).result_history(k) == if old(self).pending_at(time).contains(k)
                && key_delta(logic, old(self).source_history(k), old(self).result_history(k), k, time).len() > 0 {
                old(self).result_history(k).push((time, key_delta(logic, old(self).source_history(k), old(self).result_history(k), k, time)))
            } else {
                old(self).result_history(k)
            },
    {
        let keys = copy_pending(&self.pending, &time);
        let ghost inputs: Histories = |k: u64| old(self).source_history(k);
        let ghost outputs: Histories = |k: u64| old(self).result_history(k);
        let ghost res = self.result;
        let mut groups: Vec<(u64, Vec<(u64, i64)>)> = Vec::new();
        let mut out: Vec<(u64, u64, i64)> = Vec::new();
        let mut n: usize = 0;
        while n < keys.len()
            invariant
                *self == *old(self),
                self.well_formed(),
                strictly_sorted(keys@),
                n <= keys.len(),
                groups_well_formed(groups@),
                n == 0 ==> groups@.len() == 0,
                n > 0 ==> forall|g: int| 0 <= g < groups@.len() ==> #[trigger] groups@[g].0 <= keys@[n - 1],
                forall|k: u64, v: u64| #[trigger] weight_of(group_of(groups@, k), v) == if keys@.take(n as int).contains(k) {
                    target_weight(logic, k, collection_of(self.source.history(k), time), v) - acc_weight(self.result.history(k), time, v)
                } else {
                    0
                },
                forall|k: u64, v: u64| #[trigger] update_weight(out@, k, v) == weight_of(group_of(groups@, k), v),
                keys@.len() == 0 ==> out@.len() == 0,
                keys@ == old(self).pending_at(time),
                out@ == emitted_seq(inputs, outputs, logic, time, keys@.take(n as int)),
                forall|k: u64| #[trigger] inputs(k) == old(self).source_history(k),
                forall|k: u64| #[trigger] outputs(k) == old(self).result_history(k),
                forall|m: int| 0 <= m < n ==> !#[trigger] key_overflows(
                    logic,
                    old(self).source_history(keys@[m]),
                    old(self).result_history(keys@[m]),
                    keys@[m],
                    time,
                ),
            decreases keys.len() - n,
        {
            let key = keys[n];
            let ghost gs0 = groups@;
            let d = match recompute_key(&self.source, &self.result, key, &time, logic) {
                Ok(d) => d,
                Err(e) => {
                    proof {
                        assert(keys@.contains(key));
                        assert(key_overflows(logic, old(self).source_history(key), old(self).result_history(key), key, time));
                    }
                    return Err(e);
                },
            };
            let ghost out0 = out@;
            emit(&mut out, key, &d);
            proof {
                assert(keys@.take(n + 1) =~= keys@.take(n as int).push(key));
                assert forall|k: u64| #[trigger] keys@.take(n + 1).contains(k) <==> keys@.take(n as int).contains(k) || k == key by {
                    lemma_push_contains(keys@.take(n as int), key, k);
                }
                assert(!keys@.take(n as int).contains(key)) by {
                    if keys@.take(n as int).contains(key) {
                        let m = choose|m: int| 0 <= m < n && keys@.take(n as int)[m] == key;
                        assert(keys@[m] < keys@[n as int]);
                    }
                }
                assert forall|a: int| 0 <= a < groups@.len() implies #[trigger] groups@[a].0 != key by {
                    assert(keys@[n - 1] < keys@[n as int]);
                }
                lemma_group_absent(groups@, key);
            }
            if d.len() > 0 {
                let ghost g0 = groups@;
                groups.push((key, d));
                proof {
                    let g1 = groups@;
                    assert(g1.drop_last() =~= g0);
                    assert(groups_well_formed(g1)) by {
                        assert forall|a: int, b: int| 0 <= a < b < g1.len() implies #[trigger] g1[a].0 < #[trigger] g1[b].0 by {
                            if b == g1.len() - 1 {
                                assert(keys@[n - 1] < keys@[n as int]);
                                assert(g0[a].0 <= keys@[n - 1]);
                            } else {
                                assert(g0[a].0 < g0[b].0);
                            }
                        }
                        assert forall|a: int| 0 <= a < g1.len() implies is_consolidated(#[trigger] g1[a].1@) && g1[a].1@.len() > 0 by {
                            if a < g0.len() { assert(g1[a] == g0[a]); }
                        }
                    }
                    assert forall|g: int| 0 <= g < g1.len() implies #[trigger] g1[g].0 <= keys@[n as int] by {
                        if g < g0.len() {
                            assert(g1[g] == g0[g]);
                            assert(keys@[n - 1] < keys@[n as int]);
                        }
                    }
                }
            } else {
                proof {
                    assert forall|v: u64| #[trigger] weight_of(d@, v) == 0 by {}
                    if n > 0 {
                        assert forall|g: int| 0 <= g < groups@.len() implies #[trigger] groups@[g].0 <= keys@[n as int] by {
                            assert(keys@[n - 1] < keys@[n as int]);
                        }
                    }
                }
            }
            proof {
                assert(keys@.take(n + 1).drop_last() =~= keys@.take(n as int));
                assert(keys@.take(n + 1).last() == key);
                assert(inputs(key) == self.source.history(key));
                assert(outputs(key) == self.result.history(key));
                assert(out@ == emitted_seq(inputs, outputs, logic, time, keys@.take(n + 1)));
                assert forall|k: u64, v: u64| #[trigger] weight_of(group_of(groups@, k), v) == if keys@.take(n + 1).contains(k) {
                    target_weight(logic, k, collection_of(self.source.history(k), time), v) - acc_weight(self.result.history(k), time, v)
                } else {
                    0
                } by {
                    assert(group_of(groups@, k) == if k == key { d@ } else { group_of(gs0, k) });
                    if k == key {
                        assert(weight_of(d@, v) == target_weight(logic, k, collection_of(self.source.history(k), time), v) - acc_weight(self.result.history(k), time, v));
                    }
                }
                assert forall|k: u64, v: u64| #[trigger] update_weight(out@, k, v) == weight_of(group_of(groups@, k), v) by {
                    assert(group_of(groups@, k) == if k == key { d@ } else { group_of(gs0, k) });
                }
            }
            n = n + 1;
        }
        proof {
            assert(keys@.take(keys@.len() as int) =~= keys@);
            assert forall|k: u64| !(old(self).pending_at(time).contains(k) && #[trigger] key_overflows(
                logic,
                old(self).source_history(k),
                old(self).result_history(k),
                k,
                time,
            )) by {
                if keys@.contains(k) {
                    let m = choose|m: int| 0 <= m < keys@.len() && keys@[m] == k;
                    assert(!key_overflows(logic, old(self).source_history(keys@[m]), old(self).result_history(keys@[m]), keys@[m], time));
                }
            }
        }
        let ghost g_final = groups@;
        take_pending(&mut self.pending, time);
        if groups.len() > 0 {
            self.result.set_difference(time, Compact { groups });
        }
        proof {
            assert forall|k: u64| #[trigger] self.result.history(k) == if group_of(g_final, k).len() > 0 {
                res.history(k).push((time, group_of(g_final, k)))
            } else {
                res.history(k)
            } by {
                if g_final.len() == 0 {
                    assert(group_of(g_final, k).len() == 0);
                }
            }
            assert forall|k: u64, v: u64| #[trigger] acc_weight(self.result.history(k), time, v)
                == acc_weight(res.history(k), time, v) + weight_of(group_of(g_final, k), v) by {
                if group_of(g_final, k).len() > 0 {
                    assert(res.history(k).push((time, group_of(g_final, k))).drop_last() =~= res.history(k));
                }
            }
            assert forall|k: u64| #[trigger] self.result_history(k) == if old(self).pending_at(time).contains(k)
                && key_delta(logic, old(self).source_history(k), old(self).result_history(k), k, time).len() > 0 {
                old(self).result_history(k).push((time, key_delta(logic, old(self).source_history(k), old(self).result_history(k), k, time)))
            } else {
                old(self).result_history(k)
            } by {
                let gk = group_of(g_final, k);
                lemma_group_consolidated(g_final, k);
                if old(self).pending_at(time).contains(k) {
                    let c = key_delta(logic, old(self).source_history(k), old(self).result_history(k), k, time);
                    assert(is_consolidated(gk) && forall|v: u64| #[trigger] weight_of(gk, v)
                        == target_weight(logic, k, collection_of(old(self).source_history(k), time), v) - acc_weight(old(self).result_history(k), time, v));
                    lemma_consolidated_unique(gk, c);
                } else {
                    assert forall|v: u64| #[trigger] weight_of(group_of(g_final, k), v) == 0 by {}
                    lemma_zero_weights_empty(g_final, k);
                }
            }
            assert forall|k: u64| !old(self).pending_at(time).contains(k) implies #[trigger] self.result_history(k)
                == old(self).result_history(k) by {
                assert forall|v: u64| #[trigger] weight_of(group_of(g_final, k), v) == 0 by {}
                lemma_zero_weights_empty(g_final, k);
            }
        }
        Ok(out)
    }

    /// Buffers one delivery of updates at `time`, until `time` is finished.
    pub fn deliver(&mut self, time: Time, batch: Vec<(u64, u64, i64)>)
        requires
            old(self).well_formed(),
        ensures
            final(self).well_formed(),
            final(self).staged_at(time) == old(self).staged_at(time) + batch@,
            forall|t: Time| t != time ==> #[trigger] final(self).staged_at(t) == old(self).staged_at(t),
            forall|k: u64| #[trigger] final(self).source_history(k) == old(self).source_history(k),
            forall|k: u64| #[trigger] final(self).result_history(k) == old(self).result_history(k),
            forall|t: Time| #[trigger] final(self).pending_at(t) == old(self).pending_at(t),
    {
        stage(&mut self.staged, time, batch);
    }

    /// Processes a finished time with all the updates delivered for it.
    pub fn notify<R: Reduce>(&mut self, time: Time, logic: &R) -> (r: Result<(Vec<(u64, u64, i64)>, Vec<Time>), GroupError>)
        requires
            old(self).well_formed(),
        ensures
            final(self).well_formed(),
            final(self).staged_at(time).len() == 0,
            forall|t: Time| t != time ==> #[trigger] final(self).staged_at(t) == old(self).staged_at(t),
            r is Err <==> !updates_fit(old(self).staged_at(time)) || exists|k: u64|
                (old(self).pending_at(time).contains(k) || touches(old(self).staged_at(time), k)) && #[trigger] key_overflows(
                    logic,
                    final(self).source_history(k),
                    old(self).result_history(k),
                    k,
                    time,
                ),
            r is Ok ==> forall|k: u64, t: Time, v: u64| #[trigger] acc_weight(final(self).source_history(k), t, v)
                == acc_weight(old(self).source_history(k), t, v) + if time_le(time, t) {
                    update_weight(old(self).staged_at(time), k, v)
                } else {
                    0
                },
            r is Ok ==> final(self).pending_at(time).len() == 0,
            r is Ok ==> forall|k: u64, v: u64| old(self).pending_at(time).contains(k) || touches(old(self).staged_at(time), k)
                ==> #[trigger] acc_weight(final(self).result_history(k), time, v)
                == target_weight(logic, k, collection_of(final(self).source_history(k), time), v),
            r is Ok ==> forall|k: u64| !old(self).pending_at(time).contains(k) && !touches(old(self).staged_at(time), k)
                ==> #[trigger] final(self).result_history(k) == old(self).result_history(k),
            r matches Ok(out) ==> forall|k: u64, v: u64| #[trigger] update_weight(out.0@, k, v) == acc_weight(final(self).result_history(k), time, v)
                - acc_weight(old(self).result_history(k), time, v),
            r matches Ok(out) ==> exists|ks: Seq<u64>| strictly_sorted(ks)
                && (forall|k: u64| #[trigger] ks.contains(k) <==> old(self).pending_at(time).contains(k) || touches(old(self).staged_at(time), k))
                && out.0@ == emitted_seq(
                    |k: u64| final(self).source_history(k),
                    |k: u64| old(self).result_history(k),
                    logic,
                    time,
                    ks,
                ),
            r is Ok ==> forall|t: Time, k: u64| t != time ==> (#[trigger] final(self).pending_at(t).contains(k)
                <==> old(self).pending_at(t).contains(k) || (touches(old(self).staged_at(time), k) && exists|j: int|
                    0 <= j < old(self).source_history(k).len() && t == #[trigger] time_join(time, old(self).source_history(k)[j].0))),
            r matches Ok(out) ==> forall|t: Time| #[trigger] out.1@.contains(t) <==> t != time
                && old(self).pending_at(t).len() == 0 && final(self).pending_at(t).len() > 0,
    {
        let batch = unstage(&mut self.staged, time);
        let ghost mid = *self;
        proof {
            assert forall|k: u64| #[trigger] mid.result_history(k) == old(self).result_history(k) by {}
            assert forall|k: u64| #[trigger] mid.source_history(k) == old(self).source_history(k) by {}
            assert forall|t: Time| #[trigger] mid.pending_at(t) == old(self).pending_at(t) by {}
        }
        let r = self.process(time, &batch, logic);
        proof {
            if r is Ok {
                assert forall|t: Time, k: u64| t != time implies (#[trigger] self.pending_at(t).contains(k)
                    <==> old(self).pending_at(t).contains(k) || (touches(old(self).staged_at(time), k) && exists|j: int|
                        0 <= j < old(self).source_history(k).len() && t == #[trigger] time_join(time, old(self).source_history(k)[j].0))) by {
                    assert(mid.source_history(k) == old(self).source_history(k));
                    assert(mid.pending_at(t) == old(self).pending_at(t));
                    if exists|j: int| 0 <= j < old(self).source_history(k).len() && t == #[trigger] time_join(time, old(self).source_history(k)[j].0) {
                        let j = choose|j: int| 0 <= j < old(self).source_history(k).len() && t == #[trigger] time_join(time, old(self).source_history(k)[j].0);
                        assert(t == time_join(time, mid.source_history(k)[j].0));
                    }
                    if exists|j: int| 0 <= j < mid.source_history(k).len() && t == #[trigger] time_join(time, mid.source_history(k)[j].0) {
                        let j = choose|j: int| 0 <= j < mid.source_history(k).len() && t == #[trigger] time_join(time, mid.source_history(k)[j].0);
                        assert(t == time_join(time, old(self).source_history(k)[j].0));
                    }
                }
            }
            assert((|k: u64| old(self).result_history(k)) =~= (|k: u64| mid.result_history(k)));
            assert forall|k: u64| #[trigger] key_overflows(logic, self.source_history(k), old(self).result_history(k), k, time)
                == key_overflows(logic, self.source_history(k), mid.result_history(k), k, time) by {}
        }
        r
    }

    /// Runs both phases for a finished time: installs its updates, then
    /// reconsiders the keys waiting for it. Returns the output differences
    /// and the later times that now have work.
    pub fn process<R: Reduce>(&mut self, time: Time, batch: &Vec<(u64, u64, i64)>, logic: &R) -> (r: Result<(Vec<(u64, u64, i64)>, Vec<Time>), GroupError>)
        requires
            old(self).well_formed(),
        ensures
            final(self).well_formed(),
            forall|t: Time| #[trigger] final(self).staged_at(t) == old(self).staged_at(t),
            r is Err <==> !updates_fit(batch@) || exists|k: u64|
                (old(self).pending_at(time).contains(k) || touches(batch@, k)) && #[trigger] key_overflows(
                    logic,
                    final(self).source_history(k),
                    old(self).result_history(k),
                    k,
                    time,
                ),
            r is Ok ==> forall|k: u64, t: Time, v: u64| #[trigger] acc_weight(final(self).source_history(k), t, v)
                == acc_weight(old(self).source_history(k), t, v) + if time_le(time, t) {
                    update_weight(batch@, k, v)
                } else {
                    0
                },
            r is Ok ==> final(self).pending_at(time).len() == 0,
            r is Ok ==> forall|k: u64, v: u64| old(self).pending_at(time).contains(k) || touches(batch@, k)
                ==> #[trigger] acc_weight(final(self).result_history(k), time, v)
                == target_weight(logic, k, collection_of(final(self).source_history(k), time), v),
            r is Ok ==> forall|k: u64| !old(self).pending_at(time).contains(k) && !touches(batch@, k)
                ==> #[trigger] final(self).result_history(k) == old(self).result_history(k),
            r matches Ok(out) ==> forall|k: u64, v: u64| #[trigger] update_weight(out.0@, k, v) == acc_weight(final(self).result_history(k), time, v)
                - acc_weight(old(self).result_history(k), time, v),
            r matches Ok(out) ==> (old(self).pending_at(time).len() == 0 && forall|k: u64| !#[trigger] touches(batch@, k)) ==> {
                &&& out.0@.len() == 0
                &&& forall|k: u64| #[trigger] final(self).source_history(k) == old(self).source_history(k)
                &&& forall|k: u64| #[trigger] final(self).result_history(k) == old(self).result_history(k)
            },
            r matches Ok(out) ==> exists|ks: Seq<u64>| strictly_sorted(ks)
                && (forall|k: u64| #[trigger] ks.contains(k) <==> old(self).pending_at(time).contains(k) || touches(batch@, k))
                && out.0@ == emitted_seq(
                    |k: u64| final(self).source_history(k),
                    |k: u64| old(self).result_history(k),
                    logic,
                    time,
                    ks,
                ),
            r is Ok ==> forall|t: Time, k: u64| t != time ==> (#[trigger] final(self).pending_at(t).contains(k)
                <==> old(self).pending_at(t).contains(k) || (touches(batch@, k) && exists|j: int|
                    0 <= j < old(self).source_history(k).len() && t == #[trigger] time_join(time, old(self).source_history(k)[j].0))),
            r matches Ok(out) ==> forall|t: Time| #[trigger] out.1@.contains(t) <==> t != time
                && old(self).pending_at(t).len() == 0 && final(self).pending_at(t).len() > 0,
    {
        let wake = match self.ingest(time, batch) {
            Ok(w) => w,
            Err(e) => return Err(e),
        };
        let ghost mid = *self;
        proof {
            assert forall|k: u64| old(self).pending_at(time).contains(k) || touches(batch@, k) <==> #[trigger] mid.pending_at(time).contains(k) by {}
            if old(self).pending_at(time).len() == 0 && forall|k: u64| !#[trigger] touches(batch@, k) {
                let p = mid.pending_at(time);
                if p.len() > 0 {
                    assert(p.contains(p[0]));
                    assert(old(self).pending_at(time).contains(p[0]) || touches(batch@, p[0]));
                    assert(old(self).pending_at(time).contains(p[0]));
                }
            }
        }
        let r = self.recompute(time, logic);
        proof {
            assert((|k: u64| self.source_history(k)) =~= (|k: u64| mid.source_history(k)));
            assert((|k: u64| old(self).result_history(k)) =~= (|k: u64| mid.result_history(k)));
            lemma_pending_sorted(mid.pending@, time);
            assert forall|k: u64| #[trigger] key_overflows(logic, self.source_history(k), old(self).result_history(k), k, time)
                == key_overflows(logic, mid.source_history(k), mid.result_history(k), k, time) by {
                assert(self.source_history(k) == mid.source_history(k));
                assert(mid.result_history(k) == old(self).result_history(k));
            }
        }
        match r {
            Ok(out) => Ok((out, wake)),
            Err(e) => Err(e),
        }
    }
}

/// A key has a group in a batch's compact form exactly when the batch
/// touches it.
proof fn lemma_touches(c: Compact, batch: Seq<(u64, u64, i64)>, k: u64)
    requires
        c.well_formed(),
        forall|k: u64, v: u64| #[trigger] weight_of(c.group(k), v) == update_weight(batch, k, v),
    ensures
        touches(batch, k) <==> exists|g: int| 0 <= g < c.groups@.len() && c.groups@[g].0 == k,
{
    if exists|g: int| 0 <= g < c.groups@.len() && c.groups@[g].0 == k {
        let g = choose|g: int| 0 <= g < c.groups@.len() && c.groups@[g].0 == k;
        lemma_group_present(c.groups@, g);
        let d = c.groups@[g].1@;
        assert(d.len() > 0 && is_consolidated(d));
        assert(c.group(k) == d);
        assert(d[0].1 != 0);
        lemma_weight_consolidated(d, d[0].0);
        assert(weight_of(c.group(k), d[0].0) == update_weight(batch, k, d[0].0));
        assert(update_weight(batch, k, d[0].0) != 0);
    } else {
        lemma_group_absent(c.groups@, k);
        if touches(batch, k) {
            let v = choose|v: u64| #[trigger] update_weight(batch, k, v) != 0;
            assert(weight_of(c.group(k), v) == 0);
        }
    }
}

/// Appends `(key, value, weight)` for each difference of `d`.
fn emit(out: &mut Vec<(u64, u64, i64)>, key: u64, d: &Vec<(u64, i64)>)
    ensures
        final(out)@ == old(out)@ + tagged(key, d@),
        forall|k: u64, v: u64| #[trigger] update_weight(final(out)@, k, v) == update_weight(old(out)@, k, v)
            + if k == key { weight_of(d@, v) } else { 0 },
{
    let ghost out0 = out@;
    let mut i: usize = 0;
    while i < d.len()
        invariant
            i <= d.len(),
            out0 == old(out)@,
            forall|k: u64, v: u64| #[trigger] update_weight(out@, k, v) == update_weight(out0, k, v)
                + if k == key { weight_of(d@.take(i as int), v) } else { 0 },
            out@ == out0 + tagged(key, d@.take(i as int)),
        decreases d.len() - i,
    {
        let ghost o = out@;
        out.push((key, d[i].0, d[i].1));
        proof {
            assert(out@ =~= out0 + tagged(key, d@.take(i + 1)));
            assert(out@.drop_last() =~= o);
            assert(d@.take(i + 1).drop_last() =~= d@.take(i as int));
            assert forall|k: u64, v: u64| #[trigger] update_weight(out@, k, v) == update_weight(out0, k, v)
                + if k == key { weight_of(d@.take(i + 1), v) } else { 0 } by {
                assert(update_weight(out@, k, v) == update_weight(o, k, v) + if key == k && d@[i as int].0 == v { d@[i as int].1 as int } else { 0 });
            }
        }
        i = i + 1;
    }
    proof { assert(d@.take(d@.len() as int) =~= d@); }
}

/// The naive net weight of `(k, v)` as of `t`: the sum over every batch
/// delivered at a time at or before `t`.
pub open spec fn naive_weight(batches: Seq<(Time, Seq<(u64, u64, i64)>)>, k: u64, t: Time, v: u64) -> int
    decreases batches.len(),
{
    if batches.len() == 0 {
        0
    } else {
        naive_weight(batches.drop_last(), k, t, v) + if time_le(batches.last().0, t) {
            update_weight(batches.last().1, k, v)
        } else {
            0
        }
    }
}

/// The total net weight of `(k, v)` over a sequence of emissions.
pub open spec fn emitted_weight(outs: Seq<Seq<(u64, u64, i64)>>, k: u64, v: u64) -> int
    decreases outs.len(),
{
    if outs.len() == 0 {
        0
    } else {
        emitted_weight(outs.drop_last(), k, v) + update_weight(outs.last(), k, v)
    }
}

/// Convergence: when an operator that starts with no input history takes
/// the batches one by one, each adding its updates as of every later time
/// (what `ingest` ensures), the accumulated input of every key at every
/// time is the naive sum over all batches delivered at or before that time.
pub proof fn lemma_convergence<L: Lookup<u64, usize>>(
    states: Seq<GroupBy<L>>,
    batches: Seq<(Time, Seq<(u64, u64, i64)>)>,
    k: u64,
    t: Time,
    v: u64,
)
    requires
        states.len() == batches.len() + 1,
        states[0].source_history(k).len() == 0,
        forall|i: int| 0 <= i < batches.len() ==> #[trigger] acc_weight(states[i + 1].source_history(k), t, v)
            == acc_weight(states[i].source_history(k), t, v) + if time_le(batches[i].0, t) {
                update_weight(batches[i].1, k, v)
            } else {
                0
            },
    ensures
        acc_weight(states.last().source_history(k), t, v) == naive_weight(batches, k, t, v),
    decreases batches.len(),
{
    if batches.len() > 0 {
        let n = batches.len() - 1;
        let s1 = states.drop_last();
        let b1 = batches.drop_last();
        assert forall|i: int| 0 <= i < b1.len() implies #[trigger] acc_weight(s1[i + 1].source_history(k), t, v)
            == acc_weight(s1[i].source_history(k), t, v) + if time_le(b1[i].0, t) {
                update_weight(b1[i].1, k, v)
            } else {
                0
            } by {
            assert(acc_weight(states[i + 1].source_history(k), t, v) == acc_weight(states[i].source_history(k), t, v)
                + if time_le(batches[i].0, t) { update_weight(batches[i].1, k, v) } else { 0 });
        }
        lemma_convergence(s1, b1, k, t, v);
        assert(acc_weight(states[n + 1].source_history(k), t, v) == acc_weight(states[n].source_history(k), t, v)
            + if time_le(batches[n].0, t) { update_weight(batches[n].1, k, v) } else { 0 });
    } else {
        assert(acc_weight(states[0].source_history(k), t, v) == 0);
    }
}

/// Delta correctness: when an operator that starts with no output history
/// reconsiders a key at times all at or before `last`, each step appending
/// at most one output entry at its own time and emitting exactly the change
/// of the output as of that time (what `recompute` ensures), the emissions
/// sum to the output as of `last`, which the last step at `last` sets to
/// the reduction of the whole input.
pub proof fn lemma_delta_sum<L: Lookup<u64, usize>>(
    states: Seq<GroupBy<L>>,
    times: Seq<Time>,
    outs: Seq<Seq<(u64, u64, i64)>>,
    k: u64,
    v: u64,
    last: Time,
)
    requires
        states.len() == times.len() + 1,
        outs.len() == times.len(),
        states[0].result_history(k).len() == 0,
        forall|i: int| 0 <= i < times.len() ==> time_le(#[trigger] times[i], last),
        forall|i: int| 0 <= i < times.len() ==> #[trigger] states[i + 1].result_history(k) == states[i].result_history(k)
            || states[i + 1].result_history(k) == states[i].result_history(k).push((times[i], states[i + 1].result_history(k).last().1)),
        forall|i: int| 0 <= i < times.len() ==> #[trigger] update_weight(outs[i], k, v)
            == acc_weight(states[i + 1].result_history(k), times[i], v) - acc_weight(states[i].result_history(k), times[i], v),
    ensures
        emitted_weight(outs, k, v) == acc_weight(states.last().result_history(k), last, v),
    decreases times.len(),
{
    if times.len() > 0 {
        let n = times.len() - 1;
        let s1 = states.drop_last();
        let t1 = times.drop_last();
        let o1 = outs.drop_last();
        assert forall|i: int| 0 <= i < t1.len() implies time_le(#[trigger] t1[i], last) by {
            assert(time_le(times[i], last));
        }
        assert forall|i: int| 0 <= i < t1.len() implies #[trigger] s1[i + 1].result_history(k) == s1[i].result_history(k)
            || s1[i + 1].result_history(k) == s1[i].result_history(k).push((t1[i], s1[i + 1].result_history(k).last().1)) by {
            assert(states[i + 1].result_history(k) == states[i].result_history(k)
                || states[i + 1].result_history(k) == states[i].result_history(k).push((times[i], states[i + 1].result_history(k).last().1)));
        }
        assert forall|i: int| 0 <= i < t1.len() implies #[trigger] update_weight(o1[i], k, v)
            == acc_weight(s1[i + 1].result_history(k), t1[i], v) - acc_weight(s1[i].result_history(k), t1[i], v) by {
            assert(update_weight(outs[i], k, v) == acc_weight(states[i + 1].result_history(k), times[i], v)
                - acc_weight(states[i].result_history(k), times[i], v));
        }
        lemma_delta_sum(s1, t1, o1, k, v, last);
        let h0 = states[n].result_history(k);
        let h1 = states[n + 1].result_history(k);
        assert(update_weight(outs[n], k, v) == acc_weight(h1, times[n], v) - acc_weight(h0, times[n], v));
        assert(time_le(times[n], last));
        assert(h1 == h0 || h1 == h0.push((times[n], h1.last().1)));
        if h1 != h0 {
            assert(h0.push((times[n], h1.last().1)).drop_last() =~= h0);
        }
    } else {
        assert(acc_weight(states[0].result_history(k), last, v) == 0);
    }
}

/// Strategy independence: what reconsidering keys emits depends on the
/// input and output histories alone, not on the lookup strategy that
/// indexes them, so two operators that agree on those histories emit the
/// same records, in the same order.
pub proof fn lemma_strategy_independent<L1: Lookup<u64, usize>, L2: Lookup<u64, usize>, R: Reduce>(
    a: GroupBy<L1>,
    b: GroupBy<L2>,
    logic: &R,
    time: Time,
    keys: Seq<u64>,
)
    requires
        forall|k: u64| #[trigger] a.source_history(k) == b.source_history(k),
        forall|k: u64| #[trigger] a.result_history(k) == b.result_history(k),
    ensures
        emitted_seq(|k: u64| a.source_history(k), |k: u64| a.result_history(k), logic, time, keys)
            == emitted_seq(|k: u64| b.source_history(k), |k: u64| b.result_history(k), logic, time, keys),
    decreases keys.len(),
{
    if keys.len() > 0 {
        let k = keys.last();
        assert(a.source_history(k) == b.source_history(k));
        assert(a.result_history(k) == b.result_history(k));
        lemma_strategy_independent(a, b, logic, time, keys.drop_last());
    }
}

proof fn lemma_pending_sorted(p: Seq<(Time, Vec<u64>)>, t: Time)
    requires
        pending_well_formed(p),
    ensures
        strictly_sorted(pending_keys(p, t)),
{
    crate::lookup::lemma_lookup_unique(p, t);
}

/// In well-formed groups, every key's differences are consolidated.
proof fn lemma_group_consolidated(g: Seq<(u64, Vec<(u64, i64)>)>, k: u64)
    requires
        groups_well_formed(g),
    ensures
        is_consolidated(group_of(g, k)),
{
    if exists|i: int| 0 <= i < g.len() && g[i].0 == k {
        let i = choose|i: int| 0 <= i < g.len() && g[i].0 == k;
        lemma_group_present(g, i);
    } else {
        lemma_group_absent(g, k);
        assert(group_of(g, k) =~= Seq::<(u64, i64)>::empty());
    }
}

/// Well-formed groups in which a key has zero weight everywhere have no
/// group for it.
proof fn lemma_zero_weights_empty(g: Seq<(u64, Vec<(u64, i64)>)>, k: u64)
    requires
        groups_well_formed(g),
        forall|v: u64| #[trigger] weight_of(group_of(g, k), v) == 0,
    ensures
        group_of(g, k).len() == 0,
{
    if exists|i: int| 0 <= i < g.len() && g[i].0 == k {
        let i = choose|i: int| 0 <= i < g.len() && g[i].0 == k;
        lemma_group_present(g, i);
        let d = g[i].1@;
        assert(d[0].1 != 0);
        lemma_weight_consolidated(d, d[0].0);
        assert(weight_of(group_of(g, k), d[0].0) == 0);
    } else {
        lemma_group_absent(g, k);
    }
}

} // verus!
