use itertools::Itertools;
use vstd::prelude::*;

verus! {

/// The largest magnitude of a weight. Weights stay within
/// `-MAX_WEIGHT ..= MAX_WEIGHT`, so that each can be negated.
pub const MAX_WEIGHT: i64 = 0x7fff_ffff_ffff_ffff;

/// The net weight of `v` in a list of `(value, weight)` differences: the sum
/// of the weights of all its entries for `v`.
pub open spec fn weight_of(s: Seq<(u64, i64)>, v: u64) -> int
    decreases s.len(),
{
    if s.len() == 0 {
        0
    } else {
        weight_of(s.drop_last(), v) + if s.last().0 == v {
            s.last().1 as int
        } else {
            0
        }
    }
}

/// Whether `w` is a weight that can be stored and negated.
pub open spec fn weight_in_range(w: int) -> bool {
    -(MAX_WEIGHT as int) <= w <= MAX_WEIGHT as int
}

/// Values strictly increasing, every weight nonzero and in range: the one
/// list that stands for a given net multiset.
pub open spec fn is_consolidated(s: Seq<(u64, i64)>) -> bool {
    &&& forall|i: int, j: int| 0 <= i < j < s.len() ==> #[trigger] s[i].0 < #[trigger] s[j].0
    &&& forall|i: int| 0 <= i < s.len() ==> #[trigger] s[i].1 != 0 && weight_in_range(
        s[i].1 as int,
    )
}

/// Whether every net weight of the merge of `a` and `b` is in range.
pub open spec fn sums_fit(a: Seq<(u64, i64)>, b: Seq<(u64, i64)>) -> bool {
    forall|v: u64| weight_in_range(#[trigger] weight_of(a, v) + weight_of(b, v))
}

/// `s` with every weight negated.
pub open spec fn negated(s: Seq<(u64, i64)>) -> Seq<(u64, i64)> {
    Seq::new(s.len(), |i: int| (s[i].0, (-s[i].1) as i64))
}

/// `s` with every weight doubled.
pub open spec fn doubled(s: Seq<(u64, i64)>) -> Seq<(u64, i64)> {
    Seq::new(s.len(), |i: int| (s[i].0, (2 * s[i].1) as i64))
}

/// In a consolidated list, the net weight of a value is that of its one entry,
/// or zero when there is none.
pub proof fn lemma_weight_consolidated(s: Seq<(u64, i64)>, v: u64)
    requires
        is_consolidated(s),
    ensures
        (exists|i: int| 0 <= i < s.len() && s[i].0 == v) || weight_of(s, v) == 0,
        forall|i: int| 0 <= i < s.len() && #[trigger] s[i].0 == v ==> weight_of(s, v) == s[i].1,
        weight_in_range(weight_of(s, v)),
    decreases s.len(),
{
    if s.len() > 0 {
        let t = s.drop_last();
        assert(is_consolidated(t)) by {
            assert forall|i: int, j: int| 0 <= i < j < t.len() implies #[trigger] t[i].0
                < #[trigger] t[j].0 by {
                assert(s[i].0 < s[j].0);
            }
            assert forall|i: int| 0 <= i < t.len() implies #[trigger] t[i].1 != 0
                && weight_in_range(t[i].1 as int) by {
                assert(s[i].1 != 0);
            }
        }
        lemma_weight_consolidated(t, v);
        let n = s.len() - 1;
        if s.last().0 == v {
            assert forall|i: int| 0 <= i < t.len() implies #[trigger] t[i].0 != v by {
                assert(s[i].0 < s[n].0);
            }
            assert(s[n].1 != 0);
        } else {
            assert forall|i: int| 0 <= i < s.len() && #[trigger] s[i].0 == v implies weight_of(s, v)
                == s[i].1 by {
                assert(t[i] == s[i]);
            }
            if exists|i: int| 0 <= i < t.len() && t[i].0 == v {
                let i = choose|i: int| 0 <= i < t.len() && t[i].0 == v;
                assert(s[i] == t[i]);
            }
        }
    }
}

/// Two consolidated lists with the same net weights are the same list.
pub proof fn lemma_consolidated_unique(s: Seq<(u64, i64)>, t: Seq<(u64, i64)>)
    requires
        is_consolidated(s),
        is_consolidated(t),
        forall|v: u64| #[trigger] weight_of(s, v) == weight_of(t, v),
    ensures
        s == t,
    decreases s.len() + t.len(),
{
    if s.len() == 0 && t.len() == 0 {
        assert(s =~= t);
    } else if s.len() == 0 {
        let y = t.last();
        lemma_weight_consolidated(t, y.0);
        assert(t[t.len() - 1].1 != 0);
        assert(weight_of(s, y.0) == 0);
    } else if t.len() == 0 {
        let x = s.last();
        lemma_weight_consolidated(s, x.0);
        assert(s[s.len() - 1].1 != 0);
        assert(weight_of(t, x.0) == 0);
    } else {
        let x = s.last();
        let y = t.last();
        let ns = s.len() - 1;
        let nt = t.len() - 1;
        lemma_weight_consolidated(s, x.0);
        lemma_weight_consolidated(t, x.0);
        lemma_weight_consolidated(s, y.0);
        lemma_weight_consolidated(t, y.0);
        assert(s[ns].1 != 0 && t[nt].1 != 0);
        if x.0 < y.0 {
            assert forall|i: int| 0 <= i < s.len() implies s[i].0 != y.0 by {
                if i < ns { assert(s[i].0 < s[ns].0); }
            }
            assert(false);
        } else if y.0 < x.0 {
            assert forall|i: int| 0 <= i < t.len() implies t[i].0 != x.0 by {
                if i < nt { assert(t[i].0 < t[nt].0); }
            }
            assert(false);
        }
        assert(x == y);
        let s1 = s.drop_last();
        let t1 = t.drop_last();
        lemma_drop_last_consolidated(s);
        lemma_drop_last_consolidated(t);
        assert(s =~= s1.push(x));
        assert(t =~= t1.push(y));
        lemma_weight_push(s1, x);
        lemma_weight_push(t1, y);
        assert forall|v: u64| #[trigger] weight_of(s1, v) == weight_of(t1, v) by {
            assert(weight_of(s, v) == weight_of(t, v));
        }
        lemma_consolidated_unique(s1, t1);
    }
}

proof fn lemma_drop_last_consolidated(s: Seq<(u64, i64)>)
    requires
        is_consolidated(s),
        s.len() > 0,
    ensures
        is_consolidated(s.drop_last()),
{
    let t = s.drop_last();
    assert forall|i: int, j: int| 0 <= i < j < t.len() implies #[trigger] t[i].0
        < #[trigger] t[j].0 by {
        assert(s[i].0 < s[j].0);
    }
    assert forall|i: int| 0 <= i < t.len() implies #[trigger] t[i].1 != 0
        && weight_in_range(t[i].1 as int) by {
        assert(s[i].1 != 0);
    }
}

/// Net weights of a list and the same list with one more entry.
proof fn lemma_weight_push(s: Seq<(u64, i64)>, x: (u64, i64))
    ensures
        forall|v: u64| #[trigger] weight_of(s.push(x), v) == weight_of(s, v) + if x.0 == v {
            x.1 as int
        } else {
            0
        },
{
    assert(s.push(x).drop_last() =~= s);
}

/// Net weights of a prefix one entry longer.
proof fn lemma_weight_take(s: Seq<(u64, i64)>, n: int)
    requires
        0 <= n < s.len(),
    ensures
        forall|v: u64| #[trigger] weight_of(s.take(n + 1), v) == weight_of(s.take(n), v) + if s[n].0 == v {
            s[n].1 as int
        } else {
            0
        },
{
    assert(s.take(n + 1).drop_last() =~= s.take(n));
}

proof fn lemma_weight_negated(s: Seq<(u64, i64)>)
    requires
        forall|i: int| 0 <= i < s.len() ==> weight_in_range(#[trigger] s[i].1 as int),
    ensures
        forall|v: u64| #[trigger] weight_of(negated(s), v) == -weight_of(s, v),
    decreases s.len(),
{
    if s.len() > 0 {
        let t = s.drop_last();
        assert(negated(s).drop_last() =~= negated(t));
        assert forall|i: int| 0 <= i < t.len() implies weight_in_range(#[trigger] t[i].1 as int) by {
            assert(t[i] == s[i]);
        }
        lemma_weight_negated(t);
        assert(weight_in_range(s[s.len() - 1].1 as int));
        let n = negated(s);
        assert(n.len() == s.len() && n.last() == (s.last().0, (-s.last().1) as i64));
        assert forall|v: u64| #[trigger] weight_of(negated(s), v) == -weight_of(s, v) by {
            assert(weight_of(n, v) == weight_of(n.drop_last(), v) + if n.last().0 == v { n.last().1 as int } else { 0 });
        }
    }
}

proof fn lemma_weight_doubled(s: Seq<(u64, i64)>)
    requires
        forall|i: int| 0 <= i < s.len() ==> weight_in_range(2 * #[trigger] s[i].1),
    ensures
        forall|v: u64| #[trigger] weight_of(doubled(s), v) == 2 * weight_of(s, v),
    decreases s.len(),
{
    if s.len() > 0 {
        let t = s.drop_last();
        assert(doubled(s).drop_last() =~= doubled(t));
        assert forall|i: int| 0 <= i < t.len() implies weight_in_range(2 * #[trigger] t[i].1) by {
            assert(t[i] == s[i]);
        }
        lemma_weight_doubled(t);
        assert(weight_in_range(2 * s[s.len() - 1].1));
        let n = doubled(s);
        assert(n.len() == s.len() && n.last() == (s.last().0, (2 * s.last().1) as i64));
        assert forall|v: u64| #[trigger] weight_of(doubled(s), v) == 2 * weight_of(s, v) by {
            assert(weight_of(n, v) == weight_of(n.drop_last(), v) + if n.last().0 == v { n.last().1 as int } else { 0 });
        }
    }
}

/// Merging a consolidated list with its exact negation leaves nothing: a
/// consolidated list whose net weights are those of the merge is empty.
pub proof fn lemma_merge_with_negation(a: Seq<(u64, i64)>, m: Seq<(u64, i64)>)
    requires
        is_consolidated(a),
        is_consolidated(m),
        forall|v: u64| #[trigger] weight_of(m, v) == weight_of(a, v) + weight_of(negated(a), v),
    ensures
        m.len() == 0,
{
    lemma_weight_negated(a);
    let e = Seq::<(u64, i64)>::empty();
    assert forall|v: u64| #[trigger] weight_of(m, v) == weight_of(e, v) by {}
    lemma_consolidated_unique(m, e);
}

/// Merging a consolidated list with itself doubles each weight and keeps
/// every value.
pub proof fn lemma_merge_with_self(a: Seq<(u64, i64)>, m: Seq<(u64, i64)>)
    requires
        is_consolidated(a),
        is_consolidated(m),
        forall|v: u64| #[trigger] weight_of(m, v) == 2 * weight_of(a, v),
    ensures
        m == doubled(a),
{
    assert forall|i: int| 0 <= i < a.len() implies weight_in_range(2 * #[trigger] a[i].1) by {
        lemma_weight_consolidated(a, a[i].0);
        lemma_weight_consolidated(m, a[i].0);
    }
    lemma_weight_doubled(a);
    let d = doubled(a);
    assert(is_consolidated(d)) by {
        assert forall|i: int, j: int| 0 <= i < j < d.len() implies #[trigger] d[i].0
            < #[trigger] d[j].0 by {
            assert(a[i].0 < a[j].0);
        }
        assert forall|i: int| 0 <= i < d.len() implies #[trigger] d[i].1 != 0 && weight_in_range(
            d[i].1 as int,
        ) by {
            assert(a[i].1 != 0);
            assert(weight_in_range(2 * a[i].1));
        }
    }
    lemma_consolidated_unique(m, d);
}

/// The merge of two lists by value: repeatedly the head of `a` when its
/// value is not above that of `b`'s head, else the head of `b`.
pub open spec fn merge_by_value(a: Seq<(u64, i64)>, b: Seq<(u64, i64)>) -> Seq<(u64, i64)>
    decreases a.len() + b.len(),
{
    if a.len() == 0 {
        b
    } else if b.len() == 0 {
        a
    } else if a[0].0 <= b[0].0 {
        seq![a[0]] + merge_by_value(a.drop_first(), b)
    } else {
        seq![b[0]] + merge_by_value(a, b.drop_first())
    }
}

/// Values never decrease along `s`.
pub open spec fn value_sorted(s: Seq<(u64, i64)>) -> bool {
    forall|i: int, j: int| 0 <= i <= j < s.len() ==> #[trigger] s[i].0 <= #[trigger] s[j].0
}

/// Whether `x` goes first when merging by value.
fn value_first(x: &(u64, i64), y: &(u64, i64)) -> (r: bool)
    ensures
        r == (x.0 <= y.0),
{
    x.0 <= y.0
}

/// Relies on `Itertools::merge_by` with `value_first`: it takes the left
/// head while `value_first` holds of the two heads, else the right head, and
/// the rest of either side once the other is exhausted.
#[verifier::external_body]
fn merge_values(a: &Vec<(u64, i64)>, b: &Vec<(u64, i64)>) -> (r: Vec<(u64, i64)>)
    ensures
        r@ == merge_by_value(a@, b@),
{
    a.iter().copied().merge_by(b.iter().copied(), |x, y| value_first(x, y)).collect()
}

proof fn lemma_weight_prepend(x: (u64, i64), s: Seq<(u64, i64)>, v: u64)
    ensures
        weight_of(seq![x] + s, v) == weight_of(s, v) + if x.0 == v { x.1 as int } else { 0 },
    decreases s.len(),
{
    let t = seq![x] + s;
    if s.len() == 0 {
        assert(t.drop_last() =~= Seq::<(u64, i64)>::empty());
        assert(t.last() == x);
        assert(weight_of(Seq::<(u64, i64)>::empty(), v) == 0);
    } else {
        assert(t.drop_last() =~= seq![x] + s.drop_last());
        assert(t.last() == s.last());
        lemma_weight_prepend(x, s.drop_last(), v);
    }
}

proof fn lemma_weight_drop_first(s: Seq<(u64, i64)>, v: u64)
    requires
        s.len() > 0,
    ensures
        weight_of(s, v) == weight_of(s.drop_first(), v) + if s[0].0 == v { s[0].1 as int } else { 0 },
{
    assert(s =~= seq![s[0]] + s.drop_first());
    lemma_weight_prepend(s[0], s.drop_first(), v);
}

/// Merging by value adds the net weights, and keeps values sorted.
proof fn lemma_merge_by_value(a: Seq<(u64, i64)>, b: Seq<(u64, i64)>)
    requires
        value_sorted(a),
        value_sorted(b),
    ensures
        value_sorted(merge_by_value(a, b)),
        forall|v: u64| #[trigger] weight_of(merge_by_value(a, b), v) == weight_of(a, v) + weight_of(b, v),
        merge_by_value(a, b).len() == a.len() + b.len(),
        merge_by_value(a, b).len() > 0 ==> (merge_by_value(a, b)[0] == a[0] || merge_by_value(a, b)[0] == b[0]),
        merge_by_value(a, b).len() > 0 ==> ((a.len() > 0 ==> merge_by_value(a, b)[0].0 <= a[0].0) && (b.len() > 0 ==> merge_by_value(a, b)[0].0 <= b[0].0)),
    decreases a.len() + b.len(),
{
    let m = merge_by_value(a, b);
    if a.len() == 0 {
        assert forall|v: u64| #[trigger] weight_of(m, v) == weight_of(a, v) + weight_of(b, v) by {}
    } else if b.len() == 0 {
        assert forall|v: u64| #[trigger] weight_of(m, v) == weight_of(a, v) + weight_of(b, v) by {}
    } else if a[0].0 <= b[0].0 {
        let a1 = a.drop_first();
        assert(value_sorted(a1)) by {
            assert forall|i: int, j: int| 0 <= i <= j < a1.len() implies #[trigger] a1[i].0 <= #[trigger] a1[j].0 by {
                assert(a[i + 1].0 <= a[j + 1].0);
            }
        }
        lemma_merge_by_value(a1, b);
        let t = merge_by_value(a1, b);
        assert(m == seq![a[0]] + t);
        assert forall|v: u64| #[trigger] weight_of(m, v) == weight_of(a, v) + weight_of(b, v) by {
            lemma_weight_prepend(a[0], t, v);
            lemma_weight_drop_first(a, v);
        }
        assert forall|i: int, j: int| 0 <= i <= j < m.len() implies #[trigger] m[i].0 <= #[trigger] m[j].0 by {
            if i == 0 && j > 0 {
                assert(m[j] == t[j - 1]);
                assert(t[0].0 <= t[j - 1].0);
                if a1.len() > 0 { assert(a[0].0 <= a[1].0); }
            } else if i > 0 {
                assert(m[i] == t[i - 1] && m[j] == t[j - 1]);
            }
        }
    } else {
        let b1 = b.drop_first();
        assert(value_sorted(b1)) by {
            assert forall|i: int, j: int| 0 <= i <= j < b1.len() implies #[trigger] b1[i].0 <= #[trigger] b1[j].0 by {
                assert(b[i + 1].0 <= b[j + 1].0);
            }
        }
        lemma_merge_by_value(a, b1);
        let t = merge_by_value(a, b1);
        assert(m == seq![b[0]] + t);
        assert forall|v: u64| #[trigger] weight_of(m, v) == weight_of(a, v) + weight_of(b, v) by {
            lemma_weight_prepend(b[0], t, v);
            lemma_weight_drop_first(b, v);
        }
        assert forall|i: int, j: int| 0 <= i <= j < m.len() implies #[trigger] m[i].0 <= #[trigger] m[j].0 by {
            if i == 0 && j > 0 {
                assert(m[j] == t[j - 1]);
                assert(t[0].0 <= t[j - 1].0);
                if b1.len() > 0 { assert(b[0].0 <= b[1].0); }
            } else if i > 0 {
                assert(m[i] == t[i - 1] && m[j] == t[j - 1]);
            }
        }
    }
}

/// A consolidated list is sorted by value.
pub proof fn lemma_consolidated_sorted(s: Seq<(u64, i64)>)
    requires
        is_consolidated(s),
    ensures
        value_sorted(s),
{
    assert forall|i: int, j: int| 0 <= i <= j < s.len() implies #[trigger] s[i].0 <= #[trigger] s[j].0 by {
        if i < j { assert(s[i].0 < s[j].0); }
    }
}

/// Merges two lists sorted by value, summing the weights of equal values and
/// dropping those whose sum is zero. `None` exactly when some net weight
/// leaves the weight range.
pub fn coalesce(a: &Vec<(u64, i64)>, b: &Vec<(u64, i64)>) -> (r: Option<Vec<(u64, i64)>>)
    requires
        value_sorted(a@),
        value_sorted(b@),
    ensures
        r is Some <==> sums_fit(a@, b@),
        r matches Some(m) ==> is_consolidated(m@),
        r matches Some(m) ==> forall|v: u64| #[trigger] weight_of(m@, v) == weight_of(a@, v) + weight_of(b@, v),
        is_consolidated(a@) && b@ == negated(a@) ==> (r matches Some(m) && m@.len() == 0),
        is_consolidated(a@) && a@ == b@ ==> (r matches Some(m) ==> m@ == doubled(a@)),
{
    proof {
        lemma_merge_by_value(a@, b@);
    }
    let merged = merge_values(a, b);
    let r = sum_runs(&merged);
    proof {
        if sums_fit(a@, b@) {
            assert forall|v: u64| weight_in_range(#[trigger] weight_of(merged@, v)) by {
                assert(weight_in_range(weight_of(a@, v) + weight_of(b@, v)));
            }
        }
        if forall|v: u64| weight_in_range(#[trigger] weight_of(merged@, v)) {
            assert forall|v: u64| weight_in_range(#[trigger] weight_of(a@, v) + weight_of(b@, v)) by {
                assert(weight_in_range(weight_of(merged@, v)));
            }
        }
        if is_consolidated(a@) && b@ == negated(a@) {
            lemma_weight_negated(a@);
            assert(r is Some);
            lemma_merge_with_negation(a@, r->0@);
        }
        if is_consolidated(a@) && a@ == b@ && r is Some {
            lemma_merge_with_self(a@, r->0@);
        }
    }
    r
}

/// Net weights of a list whose entries from position `n` on have other
/// values than `v`.
proof fn lemma_weight_prefix(s: Seq<(u64, i64)>, n: int, v: u64)
    requires
        0 <= n <= s.len(),
        forall|k: int| n <= k < s.len() ==> #[trigger] s[k].0 != v,
    ensures
        weight_of(s, v) == weight_of(s.take(n), v),
    decreases s.len() - n,
{
    if s.len() == n {
        assert(s.take(n) =~= s);
    } else {
        let t = s.drop_last();
        assert(t.take(n) =~= s.take(n));
        assert(s[s.len() - 1].0 != v);
        lemma_weight_prefix(t, n, v);
    }
}

/// Sums the weights of each run of equal values of a value-sorted list and
/// keeps the nonzero sums. `None` exactly when some sum leaves the weight
/// range.
fn sum_runs(m: &Vec<(u64, i64)>) -> (r: Option<Vec<(u64, i64)>>)
    requires
        value_sorted(m@),
    ensures
        r is Some <==> forall|v: u64| weight_in_range(#[trigger] weight_of(m@, v)),
        r matches Some(o) ==> is_consolidated(o@),
        r matches Some(o) ==> forall|v: u64| #[trigger] weight_of(o@, v) == weight_of(m@, v),
{
    let mut out: Vec<(u64, i64)> = Vec::new();
    let mut i: usize = 0;
    while i < m.len()
        invariant
            value_sorted(m@),
            i <= m.len(),
            is_consolidated(out@),
            forall|v: u64| #[trigger] weight_of(out@, v) == weight_of(m@.take(i as int), v),
            i < m.len() ==> forall|k: int| 0 <= k < out@.len() ==> #[trigger] out@[k].0 < m@[i as int].0,
            0 < i < m.len() ==> m@[i - 1].0 < m@[i as int].0,
        decreases m.len() - i,
    {
        let v0 = m[i].0;
        let mut sum: i128 = 0;
        let mut j: usize = i;
        while j < m.len() && m[j].0 == v0
            invariant
                value_sorted(m@),
                i < m.len(),
                i <= j <= m.len(),
                v0 == m@[i as int].0,
                forall|k: int| i <= k < j ==> #[trigger] m@[k].0 == v0,
                forall|v: u64| #[trigger] weight_of(m@.take(j as int), v) == weight_of(m@.take(i as int), v)
                    + if v == v0 { sum as int } else { 0 },
                -((j - i) * 0x8000_0000_0000_0000) <= sum <= (j - i) * 0x8000_0000_0000_0000,
            decreases m.len() - j,
        {
            proof { lemma_weight_take(m@, j as int); }
            sum = sum + m[j].1 as i128;
            j = j + 1;
        }
        proof {
            assert(j > i);
            assert(m@[j - 1].0 == v0);
            assert forall|k: int| 0 <= k < i implies #[trigger] m@.take(i as int)[k].0 != v0 by {
                assert(m@[k].0 <= m@[i - 1].0);
            }
            lemma_weight_prefix(m@.take(i as int), 0, v0);
            assert(m@.take(i as int).take(0) =~= Seq::<(u64, i64)>::empty());
            assert forall|k: int| j <= k < m@.len() implies #[trigger] m@[k].0 != v0 by {
                assert(m@[j as int].0 <= m@[k].0);
                assert(m@[j as int].0 != v0);
                assert(m@[i as int].0 <= m@[j as int].0);
            }
            lemma_weight_prefix(m@, j as int, v0);
        }
        if sum < -(MAX_WEIGHT as i128) || sum > MAX_WEIGHT as i128 {
            return None;
        }
        let ghost o = out@;
        if sum != 0 {
            out.push((v0, sum as i64));
            proof { lemma_weight_push(o, (v0, sum as i64)); }
        }
        proof {
            if j < m.len() {
                assert(m@[j as int].0 != v0);
                assert(m@[i as int].0 <= m@[j as int].0);
            }
        }
        i = j;
    }
    proof {
        assert(m@.take(m@.len() as int) =~= m@);
        assert forall|v: u64| weight_in_range(#[trigger] weight_of(m@, v)) by {
            lemma_weight_consolidated(out@, v);
        }
    }
    Some(out)
}

/// Every weight of `s`, and every net weight of every prefix of `s`, is in
/// the weight range.
pub open spec fn list_fits(s: Seq<(u64, i64)>) -> bool {
    &&& forall|i: int| 0 <= i < s.len() ==> weight_in_range(#[trigger] s[i].1 as int)
    &&& forall|n: int, v: u64| 0 <= n <= s.len() ==> weight_in_range(#[trigger] weight_of(s.take(n), v))
}

/// Sorts a list of differences by value, summing the weights of equal values
/// and dropping zero sums. `None` exactly when a weight or running sum leaves
/// the weight range.
pub fn consolidate(s: &Vec<(u64, i64)>) -> (r: Option<Vec<(u64, i64)>>)
    ensures
        r is Some <==> list_fits(s@),
        r matches Some(m) ==> is_consolidated(m@),
        r matches Some(m) ==> forall|v: u64| #[trigger] weight_of(m@, v) == weight_of(s@, v),
{
    let mut acc: Vec<(u64, i64)> = Vec::new();
    let mut n: usize = 0;
    while n < s.len()
        invariant
            n <= s.len(),
            is_consolidated(acc@),
            forall|v: u64| #[trigger] weight_of(acc@, v) == weight_of(s@.take(n as int), v),
            forall|i: int| 0 <= i < n ==> weight_in_range(#[trigger] s@[i].1 as int),
            forall|m: int, v: u64| 0 <= m <= n ==> weight_in_range(#[trigger] weight_of(s@.take(m), v)),
        decreases s.len() - n,
    {
        let (v, w) = s[n];
        proof { lemma_weight_take(s@, n as int); }
        if w < -MAX_WEIGHT {
            return None;
        }
        if w != 0 {
            let single = vec![(v, w)];
            proof {
                assert forall|x: u64| #[trigger] weight_of(single@, x) == if x == v { w as int } else { 0 } by {
                    assert(weight_of(single@.drop_last(), x) == 0);
                }
            }
            proof {
                lemma_consolidated_sorted(acc@);
                lemma_consolidated_sorted(single@);
            }
            match coalesce(&acc, &single) {
                None => {
                    proof {
                        let x = choose|x: u64| !weight_in_range(#[trigger] weight_of(acc@, x) + weight_of(single@, x));
                        assert(!weight_in_range(weight_of(s@.take(n + 1), x)));
                    }
                    return None;
                },
                Some(m) => {
                    acc = m;
                },
            }
        }
        proof {
            assert forall|m: int, x: u64| 0 <= m <= n + 1 implies weight_in_range(#[trigger] weight_of(s@.take(m), x)) by {
                if m == n + 1 {
                    lemma_weight_consolidated(acc@, x);
                }
            }
        }
        n = n + 1;
    }
    proof { assert(s@.take(s@.len() as int) =~= s@); }
    Some(acc)
}

/// `s` with every weight negated.
pub fn negate(s: &Vec<(u64, i64)>) -> (r: Vec<(u64, i64)>)
    requires
        is_consolidated(s@),
    ensures
        r@ == negated(s@),
        is_consolidated(r@),
        forall|v: u64| #[trigger] weight_of(r@, v) == -weight_of(s@, v),
{
    let mut r: Vec<(u64, i64)> = Vec::new();
    let mut i: usize = 0;
    while i < s.len()
        invariant
            i <= s.len(),
            is_consolidated(s@),
            r@ == negated(s@.take(i as int)),
        decreases s.len() - i,
    {
        assert(weight_in_range(s@[i as int].1 as int));
        r.push((s[i].0, -s[i].1));
        proof { assert(r@ =~= negated(s@.take(i + 1))); }
        i = i + 1;
    }
    proof {
        assert(s@.take(s@.len() as int) =~= s@);
        lemma_weight_negated(s@);
        let n = negated(s@);
        assert forall|a: int, b: int| 0 <= a < b < n.len() implies #[trigger] n[a].0 < #[trigger] n[b].0 by {
            assert(s@[a].0 < s@[b].0);
        }
        assert forall|a: int| 0 <= a < n.len() implies #[trigger] n[a].1 != 0 && weight_in_range(n[a].1 as int) by {
            assert(s@[a].1 != 0);
        }
    }
    r
}

} // verus!
