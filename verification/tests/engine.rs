//! End-to-end tests of the deferred graph, the two schedulers, the
//! combinators, the shuffle engine, and the collection layer.

use tange::collection::Collection;
use tange::deferred::{tree_reduce, tree_reduce_until, Deferred};
use tange::graph::Graph;
use tange::scheduler::{GreedyScheduler, LeveledScheduler};
use tange::value::{Bucket, Elem, KeyFn, MapFn, Op2, Pred, Value};

fn ints(vs: &[i64]) -> Vec<Elem> {
    vs.iter().map(|x| Elem::Int(*x)).collect()
}

#[test]
fn test_tree_reduce() {
    let mut g = Graph::new();
    let v: Vec<Deferred> = (0..999i64)
        .map(|x| Deferred::lift(&mut g, Value::Atom(Elem::Int(x)), None))
        .collect();

    let res: i64 = (0..999i64).sum();

    let agg = tree_reduce(&mut g, &v, Op2::Add).unwrap();
    let results = agg.run(&g, &mut LeveledScheduler);
    assert_eq!(results, Some(Value::Atom(Elem::Int(res))));
}

#[test]
fn test_tree_reduce_greedy() {
    let mut g = Graph::new();
    let v: Vec<Deferred> = (0..2i64)
        .map(|x| Deferred::lift(&mut g, Value::Atom(Elem::Int(x)), None))
        .collect();

    let res: i64 = (0..2i64).sum();

    let agg = tree_reduce(&mut g, &v, Op2::Add).unwrap();
    let results = agg.run(&g, &mut GreedyScheduler::new(1));
    assert_eq!(results, Some(Value::Atom(Elem::Int(res))));
}

#[test]
fn test_fold_by() {
    let mut g = Graph::new();
    let col = Collection::from_vec(&mut g, ints(&[1, 2, 3, 1, 2]));
    let out = col.fold_by(&mut g, KeyFn::Fst, 1);
    let mut results = out.run(&mut g, &mut LeveledScheduler).unwrap();
    results.sort();
    assert_eq!(
        results,
        vec![Elem::Pair(1, 2), Elem::Pair(2, 2), Elem::Pair(3, 1)]
    );
}

#[test]
fn test_fold_by_parts() {
    let mut g = Graph::new();
    let col = Collection::from_vec(&mut g, ints(&[1, 2, 3, 1, 2]));
    let out = col.fold_by(&mut g, KeyFn::Fst, 2);
    assert_eq!(out.n_partitions(), 2);
    let mut results = out.run(&mut g, &mut LeveledScheduler).unwrap();
    results.sort();
    assert_eq!(
        results,
        vec![Elem::Pair(1, 2), Elem::Pair(2, 2), Elem::Pair(3, 1)]
    );
}

#[test]
fn test_partition_by_key() {
    let mut g = Graph::new();
    let col = Collection::from_vec(&mut g, ints(&[1, 2, 3, 1, 2]));
    let computed = col
        .partition_by_key(&mut g, 2, KeyFn::Fst)
        .sort_by(&mut g, KeyFn::Fst);
    assert_eq!(computed.n_partitions(), 2);
    let results = computed.run(&mut g, &mut LeveledScheduler).unwrap();
    assert_eq!(results, ints(&[2, 2, 3, 1, 1]));
}

#[test]
fn test_partition() {
    let mut g = Graph::new();
    let col = Collection::from_vec(&mut g, ints(&[1, 2, 3, 1, 2]));
    let computed = col
        .partition(&mut g, 2, Bucket::Parity)
        .sort_by(&mut g, KeyFn::Fst);
    assert_eq!(computed.n_partitions(), 2);
    let results = computed.run(&mut g, &mut LeveledScheduler).unwrap();
    assert_eq!(results, ints(&[2, 2, 1, 1, 3]));
}

#[test]
fn test_schedulers_agree() {
    let mut g = Graph::new();
    let col = Collection::from_vec(&mut g, ints(&[5, -3, 8, 0, 2]));
    let sorted = col.sort_by(&mut g, KeyFn::Fst);
    let r1 = sorted.run(&mut g, &mut LeveledScheduler);
    let r2 = sorted.run(&mut g, &mut GreedyScheduler::new(4));
    assert_eq!(r1, r2);
    assert_eq!(r1, Some(ints(&[-3, 0, 2, 5, 8])));
}

#[test]
fn test_rerun_is_idempotent() {
    let mut g = Graph::new();
    let col = Collection::from_vec(&mut g, ints(&[4, 4, 7]));
    let out = col.frequencies(&mut g, 2);
    let mut r1 = out.run(&mut g, &mut LeveledScheduler).unwrap();
    let mut r2 = out.run(&mut g, &mut LeveledScheduler).unwrap();
    r1.sort();
    r2.sort();
    assert_eq!(r1, r2);
    assert_eq!(r1, vec![Elem::Pair(4, 2), Elem::Pair(7, 1)]);
}

#[test]
fn test_map_and_filter() {
    let mut g = Graph::new();
    let col = Collection::from_vec(&mut g, ints(&[1, 2, 3, 4, 5]));
    let mapped = col.map(&mut g, MapFn::AddConst(10));
    let r = mapped.run(&mut g, &mut LeveledScheduler);
    assert_eq!(r, Some(ints(&[11, 12, 13, 14, 15])));

    let evens = col.filter(&mut g, Pred::IsEven);
    let r = evens.run(&mut g, &mut LeveledScheduler);
    assert_eq!(r, Some(ints(&[2, 4])));
}

#[test]
fn test_count_totals_all_partitions() {
    let mut g = Graph::new();
    let col = Collection::from_vec(&mut g, ints(&[1, 2, 3, 1, 2]));
    let spread = col.partition(&mut g, 3, Bucket::Parity);
    let counted = spread.count(&mut g);
    assert_eq!(counted.n_partitions(), 1);
    let r = counted.run(&mut g, &mut LeveledScheduler);
    assert_eq!(r, Some(ints(&[5])));
}

#[test]
fn test_split_keeps_elements() {
    let mut g = Graph::new();
    let col = Collection::from_vec(&mut g, ints(&[9, 8, 7]));
    let chunks = col.split(&mut g, 2);
    assert_eq!(chunks.n_partitions(), 2);
    let r = chunks.run(&mut g, &mut LeveledScheduler);
    assert_eq!(r, Some(ints(&[9, 8, 7])));
}

#[test]
fn test_concat_collections() {
    let mut g = Graph::new();
    let a = Collection::from_vec(&mut g, ints(&[1, 2]));
    let b = Collection::from_vec(&mut g, ints(&[3]));
    let both = a.concat(&b);
    assert_eq!(both.n_partitions(), 2);
    let r = both.run(&mut g, &mut LeveledScheduler);
    assert_eq!(r, Some(ints(&[1, 2, 3])));
}

#[test]
fn test_type_mismatch_is_absence() {
    let mut g = Graph::new();
    let a = Deferred::lift(&mut g, Value::Atom(Elem::Int(1)), None);
    let l = Deferred::lift(&mut g, Value::List(ints(&[2, 3])), None);
    // adding an atom to a list is a tag mismatch: absence, not a value
    let bad = a.join(&mut g, &l, Op2::Add);
    assert_eq!(bad.run(&g, &mut LeveledScheduler), None);
    // and absence propagates through downstream nodes
    let worse = bad.join(&mut g, &a, Op2::Add);
    assert_eq!(worse.run(&g, &mut GreedyScheduler::new(2)), None);
}

#[test]
fn test_tree_reduce_empty_is_none() {
    let mut g = Graph::new();
    let none: Vec<Deferred> = Vec::new();
    assert!(tree_reduce(&mut g, &none, Op2::Add).is_none());
    assert!(tree_reduce_until(&mut g, &none, 3, Op2::Add).is_none());
}

#[test]
fn test_tree_reduce_until_stops_at_target() {
    let mut g = Graph::new();
    let v: Vec<Deferred> = (0..7i64)
        .map(|x| Deferred::lift(&mut g, Value::Atom(Elem::Int(x)), None))
        .collect();
    let partial = tree_reduce_until(&mut g, &v, 2, Op2::Add).unwrap();
    assert_eq!(partial.len(), 2);
    let mut total = 0i64;
    for d in &partial {
        match d.run(&g, &mut LeveledScheduler) {
            Some(Value::Atom(Elem::Int(x))) => total += x,
            other => panic!("expected an integer atom, got {:?}", other),
        }
    }
    assert_eq!(total, 21);
}

#[test]
fn test_fold_by_independent_of_source_partitions() {
    let mut g = Graph::new();
    let col = Collection::from_vec(&mut g, ints(&[1, 2, 3, 1, 2, 1]));
    let spread = col.partition(&mut g, 2, Bucket::Parity);
    let mut r1 = col.fold_by(&mut g, KeyFn::Fst, 2).run(&mut g, &mut LeveledScheduler).unwrap();
    let mut r2 = spread.fold_by(&mut g, KeyFn::Fst, 2).run(&mut g, &mut LeveledScheduler).unwrap();
    r1.sort();
    r2.sort();
    assert_eq!(r1, r2);
    assert_eq!(
        r1,
        vec![Elem::Pair(1, 3), Elem::Pair(2, 2), Elem::Pair(3, 1)]
    );
}

#[test]
fn test_sort_is_stable_within_partition() {
    let mut g = Graph::new();
    let pairs = vec![
        Elem::Pair(2, 1),
        Elem::Pair(1, 1),
        Elem::Pair(2, 2),
        Elem::Pair(1, 2),
    ];
    let col = Collection::from_vec(&mut g, pairs);
    let sorted = col.sort_by(&mut g, KeyFn::Fst);
    let r = sorted.run(&mut g, &mut LeveledScheduler);
    assert_eq!(
        r,
        Some(vec![
            Elem::Pair(1, 1),
            Elem::Pair(1, 2),
            Elem::Pair(2, 1),
            Elem::Pair(2, 2),
        ])
    );
}

#[test]
fn test_empty_input_collection() {
    let mut g = Graph::new();
    let col = Collection::from_vec(&mut g, Vec::new());
    assert_eq!(col.n_partitions(), 1);
    assert_eq!(col.run(&mut g, &mut LeveledScheduler), Some(Vec::new()));
    let counted = col.count(&mut g);
    assert_eq!(counted.run(&mut g, &mut LeveledScheduler), Some(ints(&[0])));
}

#[test]
fn test_add_overflow_is_absence() {
    let mut g = Graph::new();
    let a = Deferred::lift(&mut g, Value::Atom(Elem::Int(i64::MAX)), None);
    let b = Deferred::lift(&mut g, Value::Atom(Elem::Int(1)), None);
    let sum = a.join(&mut g, &b, Op2::Add);
    assert_eq!(sum.run(&g, &mut LeveledScheduler), None);
}
