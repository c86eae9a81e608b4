use diffgroup::{Group, GroupBy, GroupError, GroupUnsigned, MaxValue, Reduce, Time};

#[test]
fn max_value_reduction() {
    assert_eq!(MaxValue.reduce(1, &vec![(3, 1), (5, 1)]), vec![(5, 1)]);
    assert_eq!(MaxValue.reduce(1, &vec![(3, 1), (5, -1)]), vec![(3, 1)]);
    assert_eq!(MaxValue.reduce(1, &vec![(3, -2)]), vec![]);
}

#[test]
fn retraction_replaces_emitted_max() {
    let mut op = Group::new();
    let (out0, _) = op.process(Time::new(0, 0), &vec![(1, 5, 1), (1, 3, 1)], &MaxValue).unwrap();
    assert_eq!(out0, vec![(1, 5, 1)]);
    let (out1, _) = op.process(Time::new(1, 0), &vec![(1, 5, -1)], &MaxValue).unwrap();
    assert_eq!(out1, vec![(1, 3, 1), (1, 5, -1)]);
}

#[test]
fn cancelling_batch_emits_nothing() {
    let mut op = Group::new();
    op.process(Time::new(0, 0), &vec![(1, 5, 1)], &MaxValue).unwrap();
    let (out, wake) = op.process(Time::new(1, 0), &vec![(1, 4, 1), (1, 4, -1)], &MaxValue).unwrap();
    assert!(out.is_empty());
    assert!(wake.is_empty());
}

#[test]
fn input_vanishing_retracts_output() {
    let mut op = Group::new();
    op.process(Time::new(0, 0), &vec![(2, 7, 1)], &MaxValue).unwrap();
    let (out, _) = op.process(Time::new(1, 0), &vec![(2, 7, -1)], &MaxValue).unwrap();
    assert_eq!(out, vec![(2, 7, -1)]);
}

#[test]
fn concurrent_times_schedule_their_join() {
    let mut op = Group::new();
    let (_, wake) = op.process(Time::new(0, 1), &vec![(1, 5, 1)], &MaxValue).unwrap();
    assert!(wake.is_empty());
    let (out, wake) = op.process(Time::new(1, 0), &vec![(1, 9, 1)], &MaxValue).unwrap();
    assert_eq!(out, vec![(1, 9, 1)]);
    assert_eq!(wake, vec![Time::new(1, 1)]);
    // At the join the recorded outputs of both earlier times accumulate
    // (5 and 9), while the max of the joined input is 9 alone.
    let (out, wake) = op.process(Time::new(1, 1), &vec![], &MaxValue).unwrap();
    assert_eq!(out, vec![(1, 5, -1)]);
    assert!(wake.is_empty());
}

fn run<L: diffgroup::Lookup<u64, usize>>(mut op: GroupBy<L>) -> Vec<Vec<(u64, u64, i64)>> {
    let batches = vec![
        vec![(1, 5, 1), (2, 3, 1), (3, 8, 2)],
        vec![(1, 7, 1), (2, 3, -1)],
        vec![(3, 8, -2), (3, 1, 1), (1, 7, -1)],
    ];
    let mut outs = Vec::new();
    for (i, b) in batches.iter().enumerate() {
        let (out, _) = op.process(Time::new(i as u64, 0), b, &MaxValue).unwrap();
        outs.push(out);
    }
    outs
}

#[test]
fn dense_and_hash_strategies_agree() {
    let a = run(Group::new());
    let b = run(GroupUnsigned::new());
    assert_eq!(a, b);
    assert_eq!(a[0], vec![(1, 5, 1), (2, 3, 1), (3, 8, 1)]);
}

#[test]
fn emissions_sum_to_batch_answer() {
    let outs = run(Group::new());
    let mut net: std::collections::BTreeMap<(u64, u64), i64> = std::collections::BTreeMap::new();
    for out in &outs {
        for &(k, v, w) in out {
            *net.entry((k, v)).or_insert(0) += w;
        }
    }
    net.retain(|_, w| *w != 0);
    // Final input: key 1 {5}, key 2 {}, key 3 {1}.
    let expected: Vec<((u64, u64), i64)> = vec![((1, 5), 1), ((3, 1), 1)];
    assert_eq!(net.into_iter().collect::<Vec<_>>(), expected);
}

#[test]
fn overflowing_batch_is_an_error() {
    let mut op = Group::new();
    let r = op.process(Time::new(0, 0), &vec![(1, 5, i64::MAX), (1, 5, 1)], &MaxValue);
    assert_eq!(r.err(), Some(GroupError::Overflow));
}

#[test]
fn deliveries_at_one_time_are_buffered_together() {
    let mut op = Group::new();
    op.deliver(Time::new(0, 0), vec![(1, 5, 1)]);
    op.deliver(Time::new(1, 0), vec![(1, 9, 1)]);
    op.deliver(Time::new(0, 0), vec![(1, 3, 1), (2, 4, 1)]);
    let (out, wake) = op.notify(Time::new(0, 0), &MaxValue).unwrap();
    assert_eq!(out, vec![(1, 5, 1), (2, 4, 1)]);
    assert!(wake.is_empty());
    let (out, _) = op.notify(Time::new(1, 0), &MaxValue).unwrap();
    assert_eq!(out, vec![(1, 5, -1), (1, 9, 1)]);
    let (out, _) = op.notify(Time::new(2, 0), &MaxValue).unwrap();
    assert!(out.is_empty());
}

#[test]
fn ingest_then_recompute_matches_process() {
    let mut a = Group::new();
    let mut b = GroupUnsigned::new();
    let wake = a.ingest(Time::new(0, 0), &vec![(4, 2, 1), (4, 8, 1)]).unwrap();
    assert!(wake.is_empty());
    let out_a = a.recompute(Time::new(0, 0), &MaxValue).unwrap();
    let (out_b, _) = b.process(Time::new(0, 0), &vec![(4, 2, 1), (4, 8, 1)], &MaxValue).unwrap();
    assert_eq!(out_a, vec![(4, 8, 1)]);
    assert_eq!(out_a, out_b);
}

#[test]
fn accumulated_overflow_is_an_error() {
    let mut op = Group::new();
    op.process(Time::new(0, 0), &vec![(1, 5, i64::MAX)], &MaxValue).unwrap();
    let r = op.process(Time::new(1, 0), &vec![(1, 5, 1)], &MaxValue);
    assert_eq!(r.err(), Some(GroupError::Overflow));
}
