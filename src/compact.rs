use vstd::prelude::*;
use crate::coalesce::{coalesce, is_consolidated, lemma_weight_consolidated, weight_in_range, weight_of, MAX_WEIGHT};

verus! {

/// One time's new differences, grouped by key: keys strictly increasing, each
/// with a nonempty consolidated list of `(value, weight)` differences.
pub struct Compact {
    pub groups: Vec<(u64, Vec<(u64, i64)>)>,
}

/// The differences of key `k` in a list of groups; empty when it has none.
pub open spec fn group_of(g: Seq<(u64, Vec<(u64, i64)>)>, k: u64) -> Seq<(u64, i64)>
    decreases g.len(),
{
    if g.len() == 0 {
        Seq::empty()
    } else if g.last().0 == k {
        g.last().1@
    } else {
        group_of(g.drop_last(), k)
    }
}

/// Keys strictly increasing; groups consolidated and nonempty.
pub open spec fn groups_well_formed(g: Seq<(u64, Vec<(u64, i64)>)>) -> bool {
    &&& forall|i: int, j: int| 0 <= i < j < g.len() ==> #[trigger] g[i].0 < #[trigger] g[j].0
    &&& forall|i: int| 0 <= i < g.len() ==> is_consolidated(#[trigger] g[i].1@) && g[i].1@.len() > 0
}

/// A key that no group names has no differences.
pub proof fn lemma_group_absent(g: Seq<(u64, Vec<(u64, i64)>)>, k: u64)
    requires
        forall|i: int| 0 <= i < g.len() ==> #[trigger] g[i].0 != k,
    ensures
        group_of(g, k).len() == 0,
    decreases g.len(),
{
    if g.len() > 0 {
        let t = g.drop_last();
        assert forall|i: int| 0 <= i < t.len() implies #[trigger] t[i].0 != k by {
            assert(t[i] == g[i]);
        }
        lemma_group_absent(t, k);
    }
}

/// A key that a group names has that group's differences.
pub proof fn lemma_group_present(g: Seq<(u64, Vec<(u64, i64)>)>, i: int)
    requires
        groups_well_formed(g),
        0 <= i < g.len(),
    ensures
        group_of(g, g[i].0) == g[i].1@,
    decreases g.len(),
{
    let n = g.len() - 1;
    if i < n {
        let t = g.drop_last();
        assert(g[i].0 < g[n].0);
        assert(groups_well_formed(t)) by {
            assert forall|a: int, b: int| 0 <= a < b < t.len() implies #[trigger] t[a].0
                < #[trigger] t[b].0 by {
                assert(g[a].0 < g[b].0);
            }
            assert forall|a: int| 0 <= a < t.len() implies is_consolidated(#[trigger] t[a].1@)
                && t[a].1@.len() > 0 by {
                assert(t[a] == g[a]);
            }
        }
        lemma_group_present(t, i);
        assert(t[i] == g[i]);
    }
}

/// The net weight of `(k, v)` in a list of `(key, value, weight)` updates.
pub open spec fn update_weight(us: Seq<(u64, u64, i64)>, k: u64, v: u64) -> int
    decreases us.len(),
{
    if us.len() == 0 {
        0
    } else {
        update_weight(us.drop_last(), k, v) + if us.last().0 == k && us.last().1 == v {
            us.last().2 as int
        } else {
            0
        }
    }
}

/// The net weights of two deliveries taken together are the sums of theirs.
pub proof fn lemma_update_weight_concat(a: Seq<(u64, u64, i64)>, b: Seq<(u64, u64, i64)>, k: u64, v: u64)
    ensures
        update_weight(a + b, k, v) == update_weight(a, k, v) + update_weight(b, k, v),
    decreases b.len(),
{
    if b.len() == 0 {
        assert(a + b =~= a);
    } else {
        assert((a + b).drop_last() =~= a + b.drop_last());
        lemma_update_weight_concat(a, b.drop_last(), k, v);
    }
}

/// Delivery order: however the updates of one time are split into
/// deliveries and in whatever order these arrive, the buffered batch has
/// the same net weight for every key and value.
pub proof fn lemma_delivery_order(a: Seq<(u64, u64, i64)>, b: Seq<(u64, u64, i64)>, k: u64, v: u64)
    ensures
        update_weight(a + b, k, v) == update_weight(b + a, k, v),
{
    lemma_update_weight_concat(a, b, k, v);
    lemma_update_weight_concat(b, a, k, v);
}

/// The consolidated differences of key `k` in a batch of updates.
pub open spec fn batch_delta(us: Seq<(u64, u64, i64)>, k: u64) -> Seq<(u64, i64)> {
    choose|d: Seq<(u64, i64)>| is_consolidated(d) && forall|v: u64| #[trigger] weight_of(d, v) == update_weight(us, k, v)
}

/// Every weight, and every net weight of every prefix of the updates, is in
/// the weight range.
pub open spec fn updates_fit(us: Seq<(u64, u64, i64)>) -> bool {
    &&& forall|i: int| 0 <= i < us.len() ==> weight_in_range(#[trigger] us[i].2 as int)
    &&& forall|n: int, k: u64, v: u64|
        0 <= n <= us.len() ==> weight_in_range(#[trigger] update_weight(us.take(n), k, v))
}

proof fn lemma_update_weight_take(us: Seq<(u64, u64, i64)>, n: int)
    requires
        0 <= n < us.len(),
    ensures
        forall|k: u64, v: u64| #[trigger] update_weight(us.take(n + 1), k, v)
            == update_weight(us.take(n), k, v) + if us[n].0 == k && us[n].1 == v {
            us[n].2 as int
        } else {
            0
        },
{
    assert(us.take(n + 1).drop_last() =~= us.take(n));
}

/// In well-formed groups, a key's differences are those of its group.
proof fn lemma_group_char(g: Seq<(u64, Vec<(u64, i64)>)>, k: u64)
    requires
        groups_well_formed(g),
    ensures
        forall|i: int| 0 <= i < g.len() && #[trigger] g[i].0 == k ==> group_of(g, k) == g[i].1@,
        (forall|i: int| 0 <= i < g.len() ==> #[trigger] g[i].0 != k) ==> group_of(g, k).len() == 0,
{
    assert forall|i: int| 0 <= i < g.len() && #[trigger] g[i].0 == k implies group_of(g, k)
        == g[i].1@ by {
        lemma_group_present(g, i);
    }
    if forall|i: int| 0 <= i < g.len() ==> #[trigger] g[i].0 != k {
        lemma_group_absent(g, k);
    }
}

proof fn lemma_groups_in_range(g: Seq<(u64, Vec<(u64, i64)>)>, k: u64, v: u64)
    requires
        groups_well_formed(g),
    ensures
        weight_in_range(weight_of(group_of(g, k), v)),
{
    lemma_group_char(g, k);
    if exists|i: int| 0 <= i < g.len() && g[i].0 == k {
        let i = choose|i: int| 0 <= i < g.len() && g[i].0 == k;
        lemma_weight_consolidated(g[i].1@, v);
    }
}

/// The first position whose key is not below `k`.
fn find_slot(g: &Vec<(u64, Vec<(u64, i64)>)>, k: u64) -> (p: usize)
    requires
        groups_well_formed(g@),
    ensures
        p <= g.len(),
        forall|i: int| 0 <= i < p ==> #[trigger] g@[i].0 < k,
        p < g.len() ==> g@[p as int].0 >= k,
{
    let mut p: usize = 0;
    while p < g.len() && g[p].0 < k
        invariant
            p <= g.len(),
            forall|i: int| 0 <= i < p ==> #[trigger] g@[i].0 < k,
        decreases g.len() - p,
    {
        p = p + 1;
    }
    p
}

impl Compact {
    pub open spec fn well_formed(&self) -> bool {
        groups_well_formed(self.groups@)
    }

    /// The differences of key `k`; empty when it has none.
    pub open spec fn group(&self, k: u64) -> Seq<(u64, i64)> {
        group_of(self.groups@, k)
    }

    pub fn new() -> (r: Compact)
        ensures
            r.well_formed(),
            forall|k: u64| #[trigger] r.group(k).len() == 0,
    {
        Compact { groups: Vec::new() }
    }

    /// Groups a batch of `(key, value, weight)` updates by key, summing the
    /// weights of equal pairs. `None` exactly when a weight, or a running sum
    /// of weights, leaves the weight range.
    pub fn from_updates(updates: &Vec<(u64, u64, i64)>) -> (r: Option<Compact>)
        ensures
            r is Some <==> updates_fit(updates@),
            r matches Some(c) ==> c.well_formed(),
            r matches Some(c) ==> forall|k: u64, v: u64| #[trigger] weight_of(c.group(k), v)
                == update_weight(updates@, k, v),
    {
        let mut groups: Vec<(u64, Vec<(u64, i64)>)> = Vec::new();
        let mut n: usize = 0;
        while n < updates.len()
            invariant
                n <= updates.len(),
                groups_well_formed(groups@),
                forall|k: u64, v: u64| #[trigger] weight_of(group_of(groups@, k), v)
                    == update_weight(updates@.take(n as int), k, v),
                forall|i: int| 0 <= i < n ==> weight_in_range(#[trigger] updates@[i].2 as int),
                forall|m: int, k: u64, v: u64|
                    0 <= m <= n ==> weight_in_range(#[trigger] update_weight(updates@.take(m), k, v)),
            decreases updates.len() - n,
        {
            let (k, v, w) = updates[n];
            let ghost g_start = groups@;
            proof { lemma_update_weight_take(updates@, n as int); }
            if w < -MAX_WEIGHT {
                return None;
            }
            if w != 0 {
                let single = vec![(v, w)];
                proof {
                    assert(single@.drop_last() =~= Seq::<(u64, i64)>::empty());
                    assert forall|x: u64| #[trigger] weight_of(single@, x) == if x == v { w as int } else { 0 } by {
                        assert(weight_of(single@.drop_last(), x) == 0);
                    }
                }
                let p = find_slot(&groups, k);
                let ghost g0 = groups@;
                proof { lemma_group_char(g0, k); }
                if p < groups.len() && groups[p].0 == k {
                    proof { assert(group_of(g0, k) == g0[p as int].1@); }
                    proof {
                        crate::coalesce::lemma_consolidated_sorted(g0[p as int].1@);
                        crate::coalesce::lemma_consolidated_sorted(single@);
                    }
                    let merged = coalesce(&groups[p].1, &single);
                    match merged {
                        None => {
                            proof {
                                let x = choose|x: u64| !weight_in_range(#[trigger] weight_of(g0[p as int].1@, x) + weight_of(single@, x));
                                assert(!weight_in_range(update_weight(updates@.take(n + 1), k, x)));
                            }
                            return None;
                        },
                        Some(m) => {
                            if m.len() == 0 {
                                groups.remove(p);
                                proof {
                                    lemma_groups_remove(g0, p as int);
                                    assert forall|v2: u64| #[trigger] weight_of(group_of(groups@, k), v2) == weight_of(group_of(g0, k), v2) + if v == v2 { w as int } else { 0 } by {
                                        assert(weight_of(m@, v2) == 0);
                                        assert(weight_of(Seq::<(u64, i64)>::empty(), v2) == 0);
                                    }
                                }
                            } else {
                                groups.set(p, (k, m));
                                proof {
                                    lemma_groups_set(g0, p as int, m);
                                    assert forall|v2: u64| #[trigger] weight_of(group_of(groups@, k), v2) == weight_of(group_of(g0, k), v2) + if v == v2 { w as int } else { 0 } by {
                                        assert(weight_of(m@, v2) == weight_of(g0[p as int].1@, v2) + weight_of(single@, v2));
                                    }
                                }
                            }
                        },
                    }
                } else {
                    proof {
                        assert forall|i: int| 0 <= i < g0.len() implies #[trigger] g0[i].0 != k by {
                            if i > p { assert(g0[p as int].0 < g0[i].0); }
                        }
                        assert(group_of(g0, k).len() == 0);
                    }
                    groups.insert(p, (k, single));
                    proof {
                        lemma_groups_insert(g0, p as int, k, single);
                        assert forall|v2: u64| #[trigger] weight_of(group_of(groups@, k), v2) == weight_of(group_of(g0, k), v2) + if v == v2 { w as int } else { 0 } by {
                            assert(weight_of(single@, v2) == if v2 == v { w as int } else { 0 });
                        }
                    }
                }
            }
            proof {
                assert forall|k2: u64, v2: u64| #[trigger] weight_of(group_of(groups@, k2), v2)
                    == update_weight(updates@.take(n + 1), k2, v2) by {
                    assert(weight_of(group_of(g_start, k2), v2) == update_weight(updates@.take(n as int), k2, v2));
                    assert(update_weight(updates@.take(n + 1), k2, v2) == update_weight(updates@.take(n as int), k2, v2) + if k == k2 && v == v2 { w as int } else { 0 });
                    if w == 0 {
                        assert(groups@ == g_start);
                    } else if k2 != k {
                        assert(group_of(groups@, k2) == group_of(g_start, k2));
                    } else {
                        assert(weight_of(group_of(groups@, k2), v2) == weight_of(group_of(g_start, k2), v2) + if v == v2 { w as int } else { 0 });
                    }
                }
                assert forall|m: int, k2: u64, v2: u64|
                    0 <= m <= n + 1 implies weight_in_range(#[trigger] update_weight(updates@.take(m), k2, v2)) by {
                    if m == n + 1 {
                        lemma_groups_in_range(groups@, k2, v2);
                    }
                }
            }
            n = n + 1;
        }
        proof { assert(updates@.take(updates@.len() as int) =~= updates@); }
        Some(Compact { groups })
    }

    pub fn is_empty(&self) -> (r: bool)
        requires
            self.well_formed(),
        ensures
            r <==> forall|k: u64| #[trigger] self.group(k).len() == 0,
    {
        proof {
            if self.groups@.len() > 0 {
                lemma_group_present(self.groups@, 0);
                assert(self.groups@[0].1@.len() > 0);
                assert(self.group(self.groups@[0].0).len() > 0);
            } else {
                assert forall|k: u64| #[trigger] self.group(k).len() == 0 by {
                    lemma_group_absent(self.groups@, k);
                }
            }
        }
        self.groups.len() == 0
    }
}

proof fn lemma_groups_set(g: Seq<(u64, Vec<(u64, i64)>)>, p: int, m: Vec<(u64, i64)>)
    requires
        groups_well_formed(g),
        0 <= p < g.len(),
        is_consolidated(m@),
        m@.len() > 0,
    ensures
        ({
            let h = g.update(p, (g[p].0, m));
            &&& groups_well_formed(h)
            &&& forall|k: u64| #[trigger] group_of(h, k) == if k == g[p].0 { m@ } else { group_of(g, k) }
        }),
{
    let h = g.update(p, (g[p].0, m));
    assert(groups_well_formed(h)) by {
        assert forall|i: int, j: int| 0 <= i < j < h.len() implies #[trigger] h[i].0 < #[trigger] h[j].0 by {
            assert(g[i].0 < g[j].0);
        }
        assert forall|i: int| 0 <= i < h.len() implies is_consolidated(#[trigger] h[i].1@) && h[i].1@.len() > 0 by {
            if i != p { assert(h[i] == g[i]); }
        }
    }
    assert forall|k: u64| #[trigger] group_of(h, k) == if k == g[p].0 { m@ } else { group_of(g, k) } by {
        lemma_group_char(g, k);
        lemma_group_char(h, k);
        if k != g[p].0 {
            if exists|i: int| 0 <= i < g.len() && g[i].0 == k {
                let i = choose|i: int| 0 <= i < g.len() && g[i].0 == k;
                assert(h[i] == g[i]);
            } else {
                assert forall|i: int| 0 <= i < h.len() implies #[trigger] h[i].0 != k by {
                    if i != p { assert(h[i] == g[i]); }
                }
            }
        } else {
            assert(h[p].0 == k);
        }
    }
}

proof fn lemma_groups_remove(g: Seq<(u64, Vec<(u64, i64)>)>, p: int)
    requires
        groups_well_formed(g),
        0 <= p < g.len(),
    ensures
        ({
            let h = g.remove(p);
            &&& groups_well_formed(h)
            &&& forall|k: u64| #[trigger] group_of(h, k) == if k == g[p].0 { Seq::empty() } else { group_of(g, k) }
        }),
{
    let h = g.remove(p);
    assert(groups_well_formed(h)) by {
        assert forall|i: int, j: int| 0 <= i < j < h.len() implies #[trigger] h[i].0 < #[trigger] h[j].0 by {
            let gi = if i < p { i } else { i + 1 };
            let gj = if j < p { j } else { j + 1 };
            assert(h[i] == g[gi] && h[j] == g[gj]);
            assert(g[gi].0 < g[gj].0);
        }
        assert forall|i: int| 0 <= i < h.len() implies is_consolidated(#[trigger] h[i].1@) && h[i].1@.len() > 0 by {
            let gi = if i < p { i } else { i + 1 };
            assert(h[i] == g[gi]);
        }
    }
    assert forall|k: u64| #[trigger] group_of(h, k) == if k == g[p].0 { Seq::empty() } else { group_of(g, k) } by {
        lemma_group_char(g, k);
        lemma_group_char(h, k);
        if k != g[p].0 {
            if exists|i: int| 0 <= i < g.len() && g[i].0 == k {
                let i = choose|i: int| 0 <= i < g.len() && g[i].0 == k;
                let hi = if i < p { i } else { i - 1 };
                assert(h[hi] == g[i]);
            } else {
                assert forall|i: int| 0 <= i < h.len() implies #[trigger] h[i].0 != k by {
                    let gi = if i < p { i } else { i + 1 };
                    assert(h[i] == g[gi]);
                }
            }
        } else {
            assert forall|i: int| 0 <= i < h.len() implies #[trigger] h[i].0 != k by {
                let gi = if i < p { i } else { i + 1 };
                assert(h[i] == g[gi]);
                if gi < p { assert(g[gi].0 < g[p].0); } else { assert(g[p].0 < g[gi].0); }
            }
            assert(group_of(h, k) =~= Seq::empty());
        }
    }
}

proof fn lemma_groups_insert(g: Seq<(u64, Vec<(u64, i64)>)>, p: int, k: u64, m: Vec<(u64, i64)>)
    requires
        groups_well_formed(g),
        0 <= p <= g.len(),
        is_consolidated(m@),
        m@.len() > 0,
        forall|i: int| 0 <= i < p ==> #[trigger] g[i].0 < k,
        p < g.len() ==> g[p].0 > k,
    ensures
        ({
            let h = g.insert(p, (k, m));
            &&& groups_well_formed(h)
            &&& forall|k2: u64| #[trigger] group_of(h, k2) == if k2 == k { m@ } else { group_of(g, k2) }
        }),
{
    let h = g.insert(p, (k, m));
    assert(groups_well_formed(h)) by {
        assert forall|i: int, j: int| 0 <= i < j < h.len() implies #[trigger] h[i].0 < #[trigger] h[j].0 by {
            if i < p && j < p {
                assert(g[i].0 < g[j].0);
            } else if i < p && j == p {
            } else if i < p {
                assert(h[j] == g[j - 1]);
                if j - 1 > p { assert(g[p].0 < g[j - 1].0); }
            } else if i == p {
                assert(h[j] == g[j - 1]);
                if j - 1 > p { assert(g[p].0 < g[j - 1].0); }
            } else {
                assert(h[j] == g[j - 1] && h[i] == g[i - 1]);
                assert(g[i - 1].0 < g[j - 1].0);
            }
        }
        assert forall|i: int| 0 <= i < h.len() implies is_consolidated(#[trigger] h[i].1@) && h[i].1@.len() > 0 by {
            if i < p { assert(h[i] == g[i]); } else if i > p { assert(h[i] == g[i - 1]); }
        }
    }
    assert forall|k2: u64| #[trigger] group_of(h, k2) == if k2 == k { m@ } else { group_of(g, k2) } by {
        lemma_group_char(g, k2);
        lemma_group_char(h, k2);
        if k2 != k {
            if exists|i: int| 0 <= i < g.len() && g[i].0 == k2 {
                let i = choose|i: int| 0 <= i < g.len() && g[i].0 == k2;
                let hi = if i < p { i } else { i + 1 };
                assert(h[hi] == g[i]);
            } else {
                assert forall|i: int| 0 <= i < h.len() implies #[trigger] h[i].0 != k2 by {
                    if i < p { assert(h[i] == g[i]); } else if i > p { assert(h[i] == g[i - 1]); }
                }
            }
        } else {
            assert(h[p].0 == k);
        }
    }
}

} // verus!
