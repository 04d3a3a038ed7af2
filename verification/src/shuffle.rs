//! The partition/shuffle engine: redistribute the elements of a set
//! of deferred partitions into `n` buckets by a bucket function, with
//! optional local pre-aggregation before and a grouped merge after the
//! redistribution.
//!
//! The bucket-then-transpose shape: each (source, bucket) grid cell is
//! one task selecting the source's elements routed to that bucket;
//! each output partition concatenates its column of cells in source
//! order.  Pure graph construction: nothing is evaluated here.

use vstd::prelude::*;
use vstd::multiset::Multiset;
use crate::value::{
    Value, Val, Elem, Op1, Op2, Bucket, KeyFn, lift1, select_list, bucket_of, key_of,
    lemma_filter_push, sort_list, lemma_sort_list_multiset, group_fold, group_keys, count_key,
    sum_key, all_pairs, hash_key, lemma_count_key_bounds, lemma_group_keys_distinct,
    lemma_sum_key_push, lemma_count_key_push,
};
use crate::graph::{Graph, Node, eval, extends, lemma_extends_trans};
use crate::deferred::{
    Deferred, all_wf, evals_of, batch_apply, tree_reduce, graph_bigger_keeps, all_lists, list_of,
    cat_all, is_list, lemma_tree_concat, lemma_tree_concat_bad, reduce_rounds,
};

verus! {

/// The materialized lists behind a sequence of partition values.
pub open spec fn lists_of(s: Seq<Option<Val>>) -> Seq<Seq<Elem>> {
    s.map_values(|v: Option<Val>| list_of(v))
}

/// The elements routed to bucket `dest`, gathered across all source
/// partitions in ascending source order, keeping each source's
/// element order.
pub open spec fn bucket_concat(b: Bucket, n: int, dest: int, ls: Seq<Seq<Elem>>) -> Seq<Elem>
    decreases ls.len(),
{
    if ls.len() == 0 {
        Seq::<Elem>::empty()
    } else {
        bucket_concat(b, n, dest, ls.drop_last()) + select_list(
            b,
            n,
            ls.len() - 1,
            dest,
            ls.last(),
        )
    }
}

/// What one output bucket of `partition` materializes to, given the
/// source partitions' values.
pub open spec fn bucket_val(b: Bucket, n: int, dest: int, s: Seq<Option<Val>>) -> Option<Val> {
    if s.len() == 0 {
        Some(Val::List(Seq::<Elem>::empty()))
    } else if all_lists(s) {
        Some(Val::List(bucket_concat(b, n, dest, lists_of(s))))
    } else {
        None
    }
}

/// Appending one source extends the gathered bucket by that source's
/// selected elements.
proof fn lemma_cat_all_push(s: Seq<Option<Val>>, x: Option<Val>)
    ensures
        cat_all(s.push(x)) == cat_all(s) + list_of(x),
    decreases s.len(),
{
    if s.len() == 0 {
        reveal_with_fuel(cat_all, 3);
        assert(s.push(x)[0] == x);
        assert(s.push(x).drop_first() =~= s);
        assert(cat_all(s.push(x)) =~= list_of(x));
        assert(cat_all(s) + list_of(x) =~= list_of(x));
    } else {
        assert(s.push(x).drop_first() =~= s.drop_first().push(x));
        lemma_cat_all_push(s.drop_first(), x);
        assert(s.push(x)[0] == s[0]);
        assert(list_of(s[0]) + (cat_all(s.drop_first()) + list_of(x)) =~= (list_of(s[0]) + cat_all(
            s.drop_first(),
        )) + list_of(x));
    }
}

/// The concatenation of a column of grid cells equals the gathered
/// bucket of the sources.
proof fn lemma_cells_concat(b: Bucket, n: int, dest: int, s: Seq<Option<Val>>, cs: Seq<
    Option<Val>,
>)
    requires
        all_lists(s),
        cs.len() == s.len(),
        forall|i: int|
            0 <= i < s.len() ==> #[trigger] cs[i] == Some(
                Val::List(select_list(b, n, i, dest, list_of(s[i]))),
            ),
    ensures
        all_lists(cs),
        cat_all(cs) == bucket_concat(b, n, dest, lists_of(s)),
    decreases s.len(),
{
    if s.len() > 0 {
        let s0 = s.drop_last();
        let cs0 = cs.drop_last();
        assert(all_lists(s0)) by {
            assert(forall|i: int| 0 <= i < s0.len() ==> s0[i] == s[i]);
        }
        assert forall|i: int|
            0 <= i < s0.len() implies #[trigger] cs0[i] == Some(
            Val::List(select_list(b, n, i, dest, list_of(s0[i]))),
        ) by {
            assert(cs0[i] == cs[i] && s0[i] == s[i]);
        }
        lemma_cells_concat(b, n, dest, s0, cs0);
        assert(cs0.push(cs.last()) =~= cs);
        lemma_cat_all_push(cs0, cs.last());
        assert(lists_of(s).drop_last() =~= lists_of(s0));
        assert(lists_of(s).last() == list_of(s.last()));
        assert(cs.last() == Some(
            Val::List(select_list(b, n, s.len() - 1, dest, list_of(s.last()))),
        ));
    } else {
        assert(cat_all(cs) =~= bucket_concat(b, n, dest, lists_of(s)));
    }
}

/// Redistribute the sources' elements into exactly `n` output
/// partitions by the bucket function.  Each element lands in exactly
/// the bucket the function names for it; order within an output
/// partition is source index ascending, then source element order.
pub fn partition(g: &mut Graph, defs: &Vec<Deferred>, n: usize, b: Bucket) -> (out: Vec<Deferred>)
    requires
        old(g).wf(),
        all_wf(old(g)@, defs@),
        n >= 1,
    ensures
        final(g).wf(),
        extends(old(g)@, final(g)@),
        graph_bigger_keeps(old(g)@, final(g)@),
        out@.len() == n,
        all_wf(final(g)@, out@),
        forall|dest: int|
            0 <= dest < n ==> (#[trigger] out@[dest]).dval(final(g)@) == bucket_val(
                b,
                n as int,
                dest,
                evals_of(old(g)@, defs@),
            ),
{
    let ghost g0 = g@;
    let ghost s0 = evals_of(g0, defs@);
    proof {
        assert(g@.take(g0.len() as int) =~= g0);
    }
    let mut out: Vec<Deferred> = Vec::new();
    let mut dest: usize = 0;
    while dest < n
        invariant
            g.wf(),
            n >= 1,
            extends(g0, g@),
            graph_bigger_keeps(g0, g@),
            all_wf(g0, defs@),
            s0 == evals_of(g0, defs@),
            dest <= n,
            out@.len() == dest,
            all_wf(g@, out@),
            forall|d: int|
                0 <= d < dest ==> (#[trigger] out@[d]).dval(g@) == bucket_val(
                    b,
                    n as int,
                    d,
                    s0,
                ),
        decreases n - dest,
    {
        let ghost gouter = g@;
        proof {
            assert(g@.take(gouter.len() as int) =~= gouter);
        }
        // one column of grid cells: the sources' elements for this bucket
        let mut cells: Vec<Deferred> = Vec::new();
        let mut i: usize = 0;
        while i < defs.len()
            invariant
                g.wf(),
                n >= 1,
                dest < n,
                extends(g0, g@),
                graph_bigger_keeps(g0, g@),
                extends(gouter, g@),
                graph_bigger_keeps(gouter, g@),
                out@.len() == dest,
                all_wf(gouter, out@),
                forall|d2: int|
                    0 <= d2 < dest ==> (#[trigger] out@[d2]).dval(gouter) == bucket_val(
                        b,
                        n as int,
                        d2,
                        s0,
                    ),
                all_wf(g0, defs@),
                s0 == evals_of(g0, defs@),
                i <= defs@.len(),
                cells@.len() == i,
                all_wf(g@, cells@),
                forall|j: int|
                    0 <= j < i ==> (#[trigger] cells@[j]).dval(g@) == lift1(
                        Op1::SelectBucket { dest, n, src: j as usize, by: b },
                        s0[j],
                    ),
            decreases defs.len() - i,
        {
            let ghost gpre = g@;
            let d = defs[i];
            proof {
                assert(defs@[i as int].wf(g0));
            }
            let nd = d.apply(g, Op1::SelectBucket { dest, n, src: i, by: b });
            proof {
                lemma_extends_trans(g0, gpre, g@);
                lemma_extends_trans(gouter, gpre, g@);
                assert(eval(gpre, d.node as int) == eval(g0, d.node as int));
                assert forall|j: int|
                    0 <= j < i + 1 implies (#[trigger] cells@.push(nd)[j]).dval(g@) == lift1(
                    Op1::SelectBucket { dest, n, src: j as usize, by: b },
                    s0[j],
                ) by {
                    if j < i as int {
                        assert(cells@[j].dval(gpre) == lift1(
                            Op1::SelectBucket { dest, n, src: j as usize, by: b },
                            s0[j],
                        ));
                        assert(eval(g@, cells@[j].node as int) == eval(
                            gpre,
                            cells@[j].node as int,
                        ));
                    }
                }
            }
            cells.push(nd);
            i += 1;
        }
        let ghost gcells = g@;
        let ghost cvals = evals_of(gcells, cells@);
        proof {
            assert forall|j: int| 0 <= j < cvals.len() implies #[trigger] cvals[j] == lift1(
                Op1::SelectBucket { dest, n, src: j as usize, by: b },
                s0[j],
            ) by {
                assert(cells@[j].dval(gcells) == lift1(
                    Op1::SelectBucket { dest, n, src: j as usize, by: b },
                    s0[j],
                ));
            }
        }
        let bd: Deferred;
        if cells.len() == 0 {
            bd = Deferred::lift(g, Value::List(Vec::new()), None);
            proof {
                lemma_extends_trans(g0, gcells, g@);
                lemma_extends_trans(gouter, gcells, g@);
                assert forall|i2: int| 0 <= i2 < gouter.len() implies #[trigger] eval(g@, i2)
                    == eval(gouter, i2) by {
                    assert(eval(gcells, i2) == eval(gouter, i2));
                }
                assert(bd.dval(g@) == Some(Val::List(Seq::<Elem>::empty())));
            }
        } else {
            let r = tree_reduce(g, &cells, Op2::Concat);
            match r {
                Some(d2) => {
                    bd = d2;
                },
                None => {
                    proof {
                        assert(false);
                    }
                    bd = Deferred { node: 0 };
                },
            }
            proof {
                lemma_extends_trans(g0, gcells, g@);
                lemma_extends_trans(gouter, gcells, g@);
                assert forall|i2: int| 0 <= i2 < gouter.len() implies #[trigger] eval(g@, i2)
                    == eval(gouter, i2) by {
                    assert(eval(gcells, i2) == eval(gouter, i2));
                }
                if all_lists(s0) {
                    assert forall|j: int| 0 <= j < cvals.len() implies #[trigger] cvals[j]
                        == Some(Val::List(select_list(b, n as int, j, dest as int, list_of(
                        s0[j],
                    )))) by {
                        assert(is_list(s0[j]));
                    }
                    lemma_cells_concat(b, n as int, dest as int, s0, cvals);
                    lemma_tree_concat(cvals);
                    assert(bd.dval(g@) == reduce_rounds(Op2::Concat, cvals, 1)[0]);
                } else {
                    let w = choose|w: int| 0 <= w < s0.len() && !is_list(s0[w]);
                    assert(cvals[w] is None);
                    assert(!all_lists(cvals));
                    if cvals.len() >= 2 {
                        lemma_tree_concat_bad(cvals);
                    } else {
                        assert(cvals.len() == 1 && w == 0);
                        assert(reduce_rounds(Op2::Concat, cvals, 1) == cvals);
                    }
                    assert(bd.dval(g@) is None);
                }
            }
        }
        proof {
            assert forall|i2: int| 0 <= i2 < g0.len() implies #[trigger] eval(g@, i2) == eval(
                g0,
                i2,
            ) by {
                assert(eval(gouter, i2) == eval(g0, i2));
                assert(eval(g@, i2) == eval(gouter, i2));
            }
            assert forall|d2: int|
                0 <= d2 < dest + 1 implies (#[trigger] out@.push(bd)[d2]).dval(g@) == bucket_val(
                b,
                n as int,
                d2,
                s0,
            ) by {
                if d2 < dest as int {
                    assert(out@[d2].dval(gouter) == bucket_val(b, n as int, d2, s0));
                    assert(eval(g@, out@[d2].node as int) == eval(gouter, out@[d2].node as int));
                } else {
                    assert(out@.push(bd)[d2] == bd);
                }
            }
            assert forall|d2: int|
                0 <= d2 < dest + 1 implies (#[trigger] out@.push(bd)[d2]).wf(g@) by {
                if d2 < dest as int {
                    assert(out@[d2].wf(gouter));
                }
            }
        }
        out.push(bd);
        dest += 1;
    }
    out
}

/// Redistribute by a hash of each element's key: all elements with
/// equal keys land in the same output partition.  Distinct keys may
/// share a partition (hash collisions merge buckets); no order beyond
/// the gather order is imposed.
pub fn partition_by_key(g: &mut Graph, defs: &Vec<Deferred>, n: usize, k: KeyFn) -> (out: Vec<
    Deferred,
>)
    requires
        old(g).wf(),
        all_wf(old(g)@, defs@),
        n >= 1,
    ensures
        final(g).wf(),
        extends(old(g)@, final(g)@),
        graph_bigger_keeps(old(g)@, final(g)@),
        out@.len() == n,
        all_wf(final(g)@, out@),
        forall|dest: int|
            0 <= dest < n ==> (#[trigger] out@[dest]).dval(final(g)@) == bucket_val(
                Bucket::ByKey(k),
                n as int,
                dest,
                evals_of(old(g)@, defs@),
            ),
{
    partition(g, defs, n, Bucket::ByKey(k))
}

/// The per-source values after local pre-aggregation.
pub open spec fn folded_locals(k: KeyFn, s: Seq<Option<Val>>) -> Seq<Option<Val>> {
    s.map_values(|v: Option<Val>| lift1(Op1::GroupFold(k), v))
}

/// Grouped aggregation in three phases: local per-key counting within
/// each source partition, a hash shuffle of the partial `(key, count)`
/// pairs into `n` buckets, and a per-bucket merge summing the partial
/// counts of equal keys.
pub fn fold_by(g: &mut Graph, defs: &Vec<Deferred>, k: KeyFn, n: usize) -> (out: Vec<Deferred>)
    requires
        old(g).wf(),
        all_wf(old(g)@, defs@),
        n >= 1,
    ensures
        final(g).wf(),
        extends(old(g)@, final(g)@),
        graph_bigger_keeps(old(g)@, final(g)@),
        out@.len() == n,
        all_wf(final(g)@, out@),
        forall|dest: int|
            0 <= dest < n ==> (#[trigger] out@[dest]).dval(final(g)@) == lift1(
                Op1::MergeFold,
                bucket_val(
                    Bucket::ByKey(KeyFn::Fst),
                    n as int,
                    dest,
                    folded_locals(k, evals_of(old(g)@, defs@)),
                ),
            ),
{
    let ghost g0 = g@;
    let ghost s0 = evals_of(g0, defs@);
    let locals = batch_apply(g, defs, Op1::GroupFold(k));
    let ghost g1 = g@;
    proof {
        assert(evals_of(g1, locals@) =~= folded_locals(k, s0));
    }
    let shuffled = partition(g, &locals, n, Bucket::ByKey(KeyFn::Fst));
    let ghost g2 = g@;
    let out = batch_apply(g, &shuffled, Op1::MergeFold);
    proof {
        lemma_extends_trans(g0, g1, g2);
        lemma_extends_trans(g0, g2, g@);
        assert forall|i: int| 0 <= i < g0.len() implies #[trigger] eval(g@, i) == eval(
            g0,
            i,
        ) by {
            assert(eval(g1, i) == eval(g0, i));
            assert(eval(g2, i) == eval(g1, i));
        }
        assert forall|dest: int|
            0 <= dest < n implies (#[trigger] out@[dest]).dval(g@) == lift1(
            Op1::MergeFold,
            bucket_val(Bucket::ByKey(KeyFn::Fst), n as int, dest, folded_locals(k, s0)),
        ) by {
            assert(out@[dest].dval(g@) == lift1(Op1::MergeFold, shuffled@[dest].dval(g2)));
            assert(shuffled@[dest].dval(g2) == bucket_val(
                Bucket::ByKey(KeyFn::Fst),
                n as int,
                dest,
                evals_of(g1, locals@),
            ));
        }
    }
    out
}

/// The elements of buckets `0 .. upto` of one source list, as a
/// multiset.
pub open spec fn selects_mset(b: Bucket, n: int, src: int, upto: int, l: Seq<Elem>) -> Multiset<
    Elem,
>
    decreases upto,
{
    if upto <= 0 {
        Multiset::<Elem>::empty()
    } else {
        selects_mset(b, n, src, upto - 1, l).add(select_list(b, n, src, upto - 1, l).to_multiset())
    }
}

proof fn lemma_selects_empty(b: Bucket, n: int, src: int, upto: int)
    ensures
        selects_mset(b, n, src, upto, Seq::<Elem>::empty()) == Multiset::<Elem>::empty(),
    decreases upto,
{
    broadcast use vstd::seq_lib::group_to_multiset_ensures;

    if upto > 0 {
        lemma_selects_empty(b, n, src, upto - 1);
        reveal(Seq::filter);
        assert(select_list(b, n, src, upto - 1, Seq::<Elem>::empty()) =~= Seq::<Elem>::empty());
        assert(Seq::<Elem>::empty().to_multiset() =~= Multiset::<Elem>::empty());
        assert(selects_mset(b, n, src, upto, Seq::<Elem>::empty()) =~= Multiset::<Elem>::empty());
    }
}

proof fn lemma_selects_push(b: Bucket, n: int, src: int, upto: int, l: Seq<Elem>, e: Elem)
    requires
        n >= 1,
        0 <= upto,
    ensures
        selects_mset(b, n, src, upto, l.push(e)) == if bucket_of(b, n, src, e) < upto {
            selects_mset(b, n, src, upto, l).insert(e)
        } else {
            selects_mset(b, n, src, upto, l)
        },
    decreases upto,
{
    broadcast use vstd::seq_lib::group_to_multiset_ensures;

    if upto > 0 {
        lemma_selects_push(b, n, src, upto - 1, l, e);
        lemma_filter_push(l, |x: Elem| bucket_of(b, n, src, x) == upto - 1, e);
        let old_sel = select_list(b, n, src, upto - 1, l);
        if bucket_of(b, n, src, e) == upto - 1 {
            assert(select_list(b, n, src, upto - 1, l.push(e)) == old_sel.push(e));
            assert(old_sel.push(e).to_multiset() =~= old_sel.to_multiset().insert(e));
            assert(selects_mset(b, n, src, upto, l.push(e)) =~= selects_mset(
                b,
                n,
                src,
                upto,
                l,
            ).insert(e));
        } else {
            assert(select_list(b, n, src, upto - 1, l.push(e)) == old_sel);
            if bucket_of(b, n, src, e) < upto - 1 {
                assert(selects_mset(b, n, src, upto, l.push(e)) =~= selects_mset(
                    b,
                    n,
                    src,
                    upto,
                    l,
                ).insert(e));
            }
        }
    }
}

/// Every element of a source list lands in exactly one of the `n`
/// buckets: taken together, the buckets are exactly the source.
pub proof fn lemma_select_full_cover(b: Bucket, n: int, src: int, l: Seq<Elem>)
    requires
        n >= 1,
    ensures
        selects_mset(b, n, src, n, l) == l.to_multiset(),
    decreases l.len(),
{
    broadcast use vstd::seq_lib::group_to_multiset_ensures;

    if l.len() == 0 {
        assert(l =~= Seq::<Elem>::empty());
        lemma_selects_empty(b, n, src, n);
        assert(l.to_multiset() =~= Multiset::<Elem>::empty());
    } else {
        let l0 = l.drop_last();
        lemma_select_full_cover(b, n, src, l0);
        assert(l0.push(l.last()) =~= l);
        lemma_selects_push(b, n, src, n, l0, l.last());
        assert(0 <= bucket_of(b, n, src, l.last()) < n);
        assert(l0.push(l.last()).to_multiset() =~= l0.to_multiset().insert(l.last()));
    }
}

/// All the sources' elements, as a multiset.
pub open spec fn sources_mset(ls: Seq<Seq<Elem>>) -> Multiset<Elem>
    decreases ls.len(),
{
    if ls.len() == 0 {
        Multiset::<Elem>::empty()
    } else {
        sources_mset(ls.drop_last()).add(ls.last().to_multiset())
    }
}

/// The contents of output buckets `0 .. upto`, as a multiset.
pub open spec fn buckets_mset(b: Bucket, n: int, upto: int, ls: Seq<Seq<Elem>>) -> Multiset<Elem>
    decreases upto,
{
    if upto <= 0 {
        Multiset::<Elem>::empty()
    } else {
        buckets_mset(b, n, upto - 1, ls).add(bucket_concat(b, n, upto - 1, ls).to_multiset())
    }
}

proof fn lemma_buckets_no_source(b: Bucket, n: int, upto: int)
    ensures
        buckets_mset(b, n, upto, Seq::<Seq<Elem>>::empty()) == Multiset::<Elem>::empty(),
    decreases upto,
{
    broadcast use vstd::seq_lib::group_to_multiset_ensures;

    if upto > 0 {
        lemma_buckets_no_source(b, n, upto - 1);
        assert(Seq::<Elem>::empty().to_multiset() =~= Multiset::<Elem>::empty());
        assert(buckets_mset(b, n, upto, Seq::<Seq<Elem>>::empty())
            =~= Multiset::<Elem>::empty());
    }
}

proof fn lemma_buckets_push_source(b: Bucket, n: int, upto: int, ls: Seq<Seq<Elem>>)
    requires
        ls.len() >= 1,
        0 <= upto,
    ensures
        buckets_mset(b, n, upto, ls) == buckets_mset(b, n, upto, ls.drop_last()).add(
            selects_mset(b, n, ls.len() - 1, upto, ls.last()),
        ),
    decreases upto,
{
    broadcast use vstd::seq_lib::group_to_multiset_ensures;

    if upto > 0 {
        lemma_buckets_push_source(b, n, upto - 1, ls);
        let cell = select_list(b, n, ls.len() - 1, upto - 1, ls.last());
        assert(bucket_concat(b, n, upto - 1, ls) == bucket_concat(b, n, upto - 1, ls.drop_last())
            + cell);
        vstd::seq_lib::lemma_multiset_commutative(
            bucket_concat(b, n, upto - 1, ls.drop_last()),
            cell,
        );
        assert(buckets_mset(b, n, upto, ls) =~= buckets_mset(b, n, upto, ls.drop_last()).add(
            selects_mset(b, n, ls.len() - 1, upto, ls.last()),
        ));
    } else {
        assert(buckets_mset(b, n, upto, ls) =~= buckets_mset(b, n, upto, ls.drop_last()).add(
            selects_mset(b, n, ls.len() - 1, upto, ls.last()),
        ));
    }
}

/// A shuffle neither drops nor duplicates: the `n` output buckets
/// together hold exactly the sources' elements, for any bucket
/// function.
pub proof fn lemma_partition_exact_cover(b: Bucket, n: int, ls: Seq<Seq<Elem>>)
    requires
        n >= 1,
    ensures
        buckets_mset(b, n, n, ls) == sources_mset(ls),
    decreases ls.len(),
{
    if ls.len() == 0 {
        assert(ls =~= Seq::<Seq<Elem>>::empty());
        lemma_buckets_no_source(b, n, n);
    } else {
        lemma_partition_exact_cover(b, n, ls.drop_last());
        lemma_buckets_push_source(b, n, n, ls);
        lemma_select_full_cover(b, n, ls.len() - 1, ls.last());
    }
}

/// Parity routing: with the parity bucket function and two buckets,
/// bucket 0 holds exactly the even-keyed elements and bucket 1 exactly
/// the odd-keyed ones, each source element exactly once.
pub proof fn lemma_partition_parity(ls: Seq<Seq<Elem>>)
    ensures
        buckets_mset(Bucket::Parity, 2, 2, ls) == sources_mset(ls),
        forall|dest: int, i: int|
            0 <= dest < 2 && 0 <= i < bucket_concat(Bucket::Parity, 2, dest, ls).len()
                ==> ((key_of(KeyFn::Fst, #[trigger] bucket_concat(Bucket::Parity, 2, dest, ls)[i])
                as int) % 2) == dest,
{
    lemma_partition_exact_cover(Bucket::Parity, 2, ls);
    assert forall|dest: int, i: int|
        0 <= dest < 2 && 0 <= i < bucket_concat(Bucket::Parity, 2, dest, ls).len() implies ((
    key_of(KeyFn::Fst, #[trigger] bucket_concat(Bucket::Parity, 2, dest, ls)[i]) as int) % 2)
        == dest by {
        lemma_bucket_concat_routing(Bucket::Parity, 2, dest, ls, i);
        let e = bucket_concat(Bucket::Parity, 2, dest, ls)[i];
        assert(bucket_of(Bucket::Parity, 2, 0, e) == ((key_of(KeyFn::Fst, e) as int) % 2) % 2);
    }
}

/// Every element of an output bucket was routed there by the bucket
/// function (the function may not read the source index for this to
/// name a single bucket; `Parity` and `ByKey` do not).
pub proof fn lemma_bucket_concat_routing(b: Bucket, n: int, dest: int, ls: Seq<Seq<Elem>>, i: int)
    requires
        0 <= i < bucket_concat(b, n, dest, ls).len(),
    ensures
        exists|src: int|
            0 <= src < ls.len() && bucket_of(b, n, src, #[trigger] bucket_concat(
                b,
                n,
                dest,
                ls,
            )[i]) == dest,
    decreases ls.len(),
{
    broadcast use vstd::seq_lib::group_filter_ensures;

    if ls.len() > 0 {
        let pre = bucket_concat(b, n, dest, ls.drop_last());
        let cell = select_list(b, n, ls.len() - 1, dest, ls.last());
        if i < pre.len() {
            lemma_bucket_concat_routing(b, n, dest, ls.drop_last(), i);
            let src = choose|src: int|
                0 <= src < ls.drop_last().len() && bucket_of(b, n, src, pre[i]) == dest;
            assert(bucket_concat(b, n, dest, ls)[i] == pre[i]);
            assert(bucket_of(b, n, src, bucket_concat(b, n, dest, ls)[i]) == dest);
        } else {
            let j = i - pre.len();
            assert(bucket_concat(b, n, dest, ls)[i] == cell[j]);
            assert(ls.last().filter(|x: Elem| bucket_of(b, n, ls.len() - 1, x) == dest)[j]
                == cell[j]);
            assert(bucket_of(b, n, ls.len() - 1, cell[j]) == dest);
        }
    }
}

/// Key-hash redistribution followed by a per-partition sort
/// reconstructs the input as a multiset: nothing is lost, duplicated
/// or invented, for any partition count.
pub proof fn lemma_partition_by_key_sort_multiset(
    k: KeyFn,
    sk: KeyFn,
    n: int,
    ls: Seq<Seq<Elem>>,
    ss: Seq<Seq<Elem>>,
)
    requires
        n >= 1,
        ss.len() == n,
        forall|d: int|
            0 <= d < n ==> #[trigger] ss[d] == sort_list(
                sk,
                bucket_concat(Bucket::ByKey(k), n, d, ls),
            ),
    ensures
        sources_mset(ss) == sources_mset(ls),
{
    lemma_partition_exact_cover(Bucket::ByKey(k), n, ls);
    lemma_sorted_buckets_mset(k, sk, n, n, ls, ss);
    assert(ss.take(n as int) =~= ss);
}

proof fn lemma_sorted_buckets_mset(
    k: KeyFn,
    sk: KeyFn,
    n: int,
    upto: int,
    ls: Seq<Seq<Elem>>,
    ss: Seq<Seq<Elem>>,
)
    requires
        n >= 1,
        0 <= upto <= n,
        ss.len() == n,
        forall|d: int|
            0 <= d < n ==> #[trigger] ss[d] == sort_list(
                sk,
                bucket_concat(Bucket::ByKey(k), n, d, ls),
            ),
    ensures
        sources_mset(ss.take(upto)) == buckets_mset(Bucket::ByKey(k), n, upto, ls),
    decreases upto,
{
    if upto > 0 {
        lemma_sorted_buckets_mset(k, sk, n, upto - 1, ls, ss);
        assert(ss.take(upto).drop_last() =~= ss.take(upto - 1));
        assert(ss.take(upto).last() == ss[upto - 1]);
        lemma_sort_list_multiset(sk, bucket_concat(Bucket::ByKey(k), n, upto - 1, ls));
    } else {
        assert(ss.take(0) =~= Seq::<Seq<Elem>>::empty());
    }
}

/// All source partitions flattened into one list, in partition order.
pub open spec fn flat_lists(ls: Seq<Seq<Elem>>) -> Seq<Elem>
    decreases ls.len(),
{
    if ls.len() == 0 {
        Seq::<Elem>::empty()
    } else {
        flat_lists(ls.drop_last()) + ls.last()
    }
}

/// Per-key counts add across a concatenation.
pub proof fn lemma_count_key_concat(k: KeyFn, a: Seq<Elem>, b: Seq<Elem>, kk: i64)
    ensures
        count_key(k, a + b, kk) == count_key(k, a, kk) + count_key(k, b, kk),
    decreases b.len(),
{
    if b.len() == 0 {
        assert(a + b =~= a);
    } else {
        assert((a + b).drop_last() =~= a + b.drop_last());
        assert((a + b).last() == b.last());
        lemma_count_key_concat(k, a, b.drop_last(), kk);
    }
}

/// Per-key sums add across a concatenation.
pub proof fn lemma_sum_key_concat(a: Seq<Elem>, b: Seq<Elem>, kk: i64)
    ensures
        sum_key(a + b, kk) == sum_key(a, kk) + sum_key(b, kk),
    decreases b.len(),
{
    if b.len() == 0 {
        assert(a + b =~= a);
    } else {
        assert((a + b).drop_last() =~= a + b.drop_last());
        assert((a + b).last() == b.last());
        lemma_sum_key_concat(a, b.drop_last(), kk);
    }
}

/// The pairs of a local pre-aggregation carry exactly the source's
/// per-key counts: summing their values per key recovers the count.
pub proof fn lemma_group_fold_sum(k: KeyFn, l: Seq<Elem>, kk: i64)
    requires
        l.len() <= i64::MAX,
    ensures
        all_pairs(group_fold(k, l)),
        sum_key(group_fold(k, l), kk) == count_key(k, l, kk),
{
    lemma_group_keys_distinct(k, l);
    crate::value::lemma_group_keys_contains(k, l, kk);
    lemma_count_key_bounds(k, l, kk);
    assert forall|i: int| 0 <= i < group_keys(k, l).len() implies 1 <= count_key(
        k,
        l,
        #[trigger] group_keys(k, l)[i],
    ) by {
        crate::value::lemma_group_keys_contains(k, l, group_keys(k, l)[i]);
        assert(group_keys(k, l).contains(group_keys(k, l)[i]));
    }
    lemma_mapped_pairs_sum(k, l, group_keys(k, l), kk);
}

/// Summing the value slots of distinct-keyed `(key, count)` pairs
/// picks out the one count carried for the key, or nothing.
proof fn lemma_mapped_pairs_sum(k: KeyFn, l: Seq<Elem>, ks: Seq<i64>, kk: i64)
    requires
        l.len() <= i64::MAX,
        forall|i: int, j: int| 0 <= i < j < ks.len() ==> ks[i] != ks[j],
        forall|i: int| 0 <= i < ks.len() ==> 1 <= count_key(k, l, #[trigger] ks[i]),
    ensures
        all_pairs(ks.map_values(|x: i64| Elem::Pair(x, count_key(k, l, x) as i64))),
        ks.contains(kk) ==> sum_key(
            ks.map_values(|x: i64| Elem::Pair(x, count_key(k, l, x) as i64)),
            kk,
        ) == count_key(k, l, kk),
        !ks.contains(kk) ==> sum_key(
            ks.map_values(|x: i64| Elem::Pair(x, count_key(k, l, x) as i64)),
            kk,
        ) == 0,
    decreases ks.len(),
{
    let f = |x: i64| Elem::Pair(x, count_key(k, l, x) as i64);
    let ps = ks.map_values(f);
    if ks.len() > 0 {
        let ks0 = ks.drop_last();
        let ps0 = ks0.map_values(f);
        assert(forall|i: int| 0 <= i < ks0.len() ==> ks0[i] == ks[i]);
        assert forall|i: int| 0 <= i < ks0.len() implies 1 <= count_key(
            k,
            l,
            #[trigger] ks0[i],
        ) by {
            assert(ks0[i] == ks[i]);
        }
        lemma_mapped_pairs_sum(k, l, ks0, kk);
        assert(ps =~= ps0.push(f(ks.last())));
        lemma_sum_key_push(ps0, f(ks.last()), kk);
        assert(!ks0.contains(ks.last())) by {
            if ks0.contains(ks.last()) {
                let w = choose|w: int| 0 <= w < ks0.len() && ks0[w] == ks.last();
                assert(ks[w] == ks[ks.len() - 1]);
            }
        }
        lemma_count_key_bounds(k, l, ks.last());
        if ks.last() == kk {
            assert(ks.contains(kk)) by {
                assert(ks[ks.len() - 1] == kk);
            }
            assert(sum_key(ps, kk) == sum_key(ps0, kk) + count_key(k, l, kk));
        } else {
            assert(sum_key(ps, kk) == sum_key(ps0, kk));
            if ks.contains(kk) {
                let w = choose|w: int| 0 <= w < ks.len() && ks[w] == kk;
                assert(w < ks0.len() && ks0[w] == kk);
                assert(ks0.contains(kk));
            } else {
                if ks0.contains(kk) {
                    let w = choose|w: int| 0 <= w < ks0.len() && ks0[w] == kk;
                    assert(ks[w] == kk);
                }
            }
        }
        assert forall|i: int| 0 <= i < ps.len() implies (#[trigger] ps[i]) is Pair by {
            if i < ps0.len() {
                assert(ps0[i] is Pair);
            }
        }
    }
}

/// Each source partition replaced by its local pre-aggregation.
pub open spec fn folded_lists(k: KeyFn, ls: Seq<Seq<Elem>>) -> Seq<Seq<Elem>> {
    ls.map_values(|l: Seq<Elem>| group_fold(k, l))
}

/// A key-hash bucket filter keeps exactly the pairs of the keys the
/// hash routes to it, whatever source partition they came from.
proof fn lemma_select_key_sum(n: int, src: int, dest: int, ps: Seq<Elem>, kk: i64)
    requires
        n >= 1,
        0 <= dest < n,
    ensures
        sum_key(select_list(Bucket::ByKey(KeyFn::Fst), n, src, dest, ps), kk) == if hash_key(kk)
            % n == dest {
            sum_key(ps, kk)
        } else {
            0
        },
    decreases ps.len(),
{
    reveal(Seq::filter);
    if ps.len() > 0 {
        let e = ps.last();
        let ps0 = ps.drop_last();
        lemma_select_key_sum(n, src, dest, ps0, kk);
        let pred = |x: Elem| bucket_of(Bucket::ByKey(KeyFn::Fst), n, src, x) == dest;
        let rest = select_list(Bucket::ByKey(KeyFn::Fst), n, src, dest, ps0);
        assert(select_list(Bucket::ByKey(KeyFn::Fst), n, src, dest, ps) == if pred(e) {
            rest.push(e)
        } else {
            rest
        });
        if pred(e) {
            lemma_sum_key_push(rest, e, kk);
        }
    }
}

/// The per-key sum of one shuffled bucket of the pre-aggregated
/// pairs: the key's global count in the flattened input if the key's
/// hash routes here, zero otherwise.  The count does not depend on
/// how the input was split into partitions.
pub proof fn lemma_bucket_key_sum(k: KeyFn, n: int, dest: int, ls: Seq<Seq<Elem>>, kk: i64)
    requires
        n >= 1,
        0 <= dest < n,
        forall|i: int| 0 <= i < ls.len() ==> (#[trigger] ls[i]).len() <= i64::MAX,
    ensures
        sum_key(
            bucket_concat(
                Bucket::ByKey(KeyFn::Fst),
                n,
                dest,
                folded_lists(k, ls),
            ),
            kk,
        ) == if hash_key(kk) % n == dest {
            count_key(k, flat_lists(ls), kk)
        } else {
            0
        },
    decreases ls.len(),
{
    let gls = folded_lists(k, ls);
    if ls.len() == 0 {
        assert(gls.len() == 0);
        assert(flat_lists(ls) =~= Seq::<Elem>::empty());
    } else {
        let ls0 = ls.drop_last();
        let gls0 = folded_lists(k, ls0);
        assert(forall|i: int| 0 <= i < ls0.len() ==> ls0[i] == ls[i]);
        assert forall|i: int| 0 <= i < ls0.len() implies (#[trigger] ls0[i]).len()
            <= i64::MAX by {
            assert(ls0[i] == ls[i]);
        }
        lemma_bucket_key_sum(k, n, dest, ls0, kk);
        assert(gls.drop_last() =~= gls0);
        assert(gls.last() == group_fold(k, ls.last()));
        assert(bucket_concat(Bucket::ByKey(KeyFn::Fst), n, dest, gls) == bucket_concat(
            Bucket::ByKey(KeyFn::Fst),
            n,
            dest,
            gls0,
        ) + select_list(
            Bucket::ByKey(KeyFn::Fst),
            n,
            gls.len() - 1,
            dest,
            group_fold(k, ls.last()),
        ));
        lemma_sum_key_concat(
            bucket_concat(Bucket::ByKey(KeyFn::Fst), n, dest, gls0),
            select_list(
                Bucket::ByKey(KeyFn::Fst),
                n,
                gls.len() - 1,
                dest,
                group_fold(k, ls.last()),
            ),
            kk,
        );
        lemma_select_key_sum(n, gls.len() - 1, dest, group_fold(k, ls.last()), kk);
        lemma_group_fold_sum(k, ls.last(), kk);
        lemma_count_key_concat(k, flat_lists(ls0), ls.last(), kk);
    }
}

/// Grouped counting is independent of the partitioning: for every
/// key, the pre-aggregate/shuffle/merge pipeline delivers the key's
/// global count in the one bucket named by the key's hash, and
/// nothing anywhere else — however the same elements were split into
/// source partitions.
pub proof fn lemma_fold_by_counts(k: KeyFn, n: int, ls: Seq<Seq<Elem>>, kk: i64)
    requires
        n >= 1,
        forall|i: int| 0 <= i < ls.len() ==> (#[trigger] ls[i]).len() <= i64::MAX,
    ensures
        sum_key(
            bucket_concat(
                Bucket::ByKey(KeyFn::Fst),
                n,
                hash_key(kk) % n,
                folded_lists(k, ls),
            ),
            kk,
        ) == count_key(k, flat_lists(ls), kk),
        forall|dest: int|
            0 <= dest < n && dest != hash_key(kk) % n ==> sum_key(
                #[trigger] bucket_concat(
                    Bucket::ByKey(KeyFn::Fst),
                    n,
                    dest,
                    folded_lists(k, ls),
                ),
                kk,
            ) == 0,
{
    lemma_bucket_key_sum(k, n, hash_key(kk) % n, ls, kk);
    assert forall|dest: int|
        0 <= dest < n && dest != hash_key(kk) % n implies sum_key(
        #[trigger] bucket_concat(
            Bucket::ByKey(KeyFn::Fst),
            n,
            dest,
            folded_lists(k, ls),
        ),
        kk,
    ) == 0 by {
        lemma_bucket_key_sum(k, n, dest, ls, kk);
    }
}

/// The merged output of a bucket, entry by entry: each key the hash
/// routes to this bucket comes out paired with its global count in
/// the flattened input — the counting aggregation's final answer,
/// independent of the source partitioning.
pub proof fn lemma_fold_by_merged(k: KeyFn, n: int, dest: int, ls: Seq<Seq<Elem>>, j: int)
    requires
        n >= 1,
        0 <= dest < n,
        forall|i: int| 0 <= i < ls.len() ==> (#[trigger] ls[i]).len() <= i64::MAX,
        0 <= j < group_keys(
            KeyFn::Fst,
            bucket_concat(Bucket::ByKey(KeyFn::Fst), n, dest, folded_lists(k, ls)),
        ).len(),
        hash_key(
            group_keys(
                KeyFn::Fst,
                bucket_concat(Bucket::ByKey(KeyFn::Fst), n, dest, folded_lists(k, ls)),
            )[j],
        ) % n == dest,
    ensures
        crate::value::merge_fold(
            bucket_concat(Bucket::ByKey(KeyFn::Fst), n, dest, folded_lists(k, ls)),
        )[j] == Elem::Pair(
            group_keys(
                KeyFn::Fst,
                bucket_concat(Bucket::ByKey(KeyFn::Fst), n, dest, folded_lists(k, ls)),
            )[j],
            count_key(
                k,
                flat_lists(ls),
                group_keys(
                    KeyFn::Fst,
                    bucket_concat(Bucket::ByKey(KeyFn::Fst), n, dest, folded_lists(k, ls)),
                )[j],
            ) as i64,
        ),
{
    let bucket = bucket_concat(Bucket::ByKey(KeyFn::Fst), n, dest, folded_lists(k, ls));
    let kk = group_keys(KeyFn::Fst, bucket)[j];
    lemma_bucket_key_sum(k, n, dest, ls, kk);
}

/// A filter of a list of pairs is again a list of pairs.
proof fn lemma_select_all_pairs(b: Bucket, n: int, src: int, dest: int, ps: Seq<Elem>)
    requires
        all_pairs(ps),
    ensures
        all_pairs(select_list(b, n, src, dest, ps)),
    decreases ps.len(),
{
    reveal(Seq::filter);
    if ps.len() > 0 {
        let ps0 = ps.drop_last();
        assert(all_pairs(ps0)) by {
            assert(forall|i: int| 0 <= i < ps0.len() ==> ps0[i] == ps[i]);
        }
        lemma_select_all_pairs(b, n, src, dest, ps0);
        let rest = select_list(b, n, src, dest, ps0);
        assert(ps.last() is Pair) by {
            assert(ps[ps.len() - 1] is Pair);
        }
        assert forall|i: int|
            0 <= i < select_list(b, n, src, dest, ps).len() implies (#[trigger] select_list(
            b,
            n,
            src,
            dest,
            ps,
        )[i]) is Pair by {
            if i < rest.len() {
                assert(rest[i] is Pair);
            }
        }
    }
}

/// The global merge of a shuffled bucket of counting pre-aggregates
/// is always defined: every element is a pair, and no per-key total
/// can leave the representable range while the whole input fits.
pub proof fn lemma_fold_by_ok(k: KeyFn, n: int, dest: int, ls: Seq<Seq<Elem>>)
    requires
        n >= 1,
        0 <= dest < n,
        forall|i: int| 0 <= i < ls.len() ==> (#[trigger] ls[i]).len() <= i64::MAX,
        flat_lists(ls).len() <= i64::MAX,
    ensures
        crate::value::merge_ok(
            bucket_concat(Bucket::ByKey(KeyFn::Fst), n, dest, folded_lists(k, ls)),
        ),
{
    let gls = folded_lists(k, ls);
    let bucket = bucket_concat(Bucket::ByKey(KeyFn::Fst), n, dest, gls);
    lemma_bucket_all_pairs(k, n, dest, ls);
    assert forall|j: int|
        0 <= j < group_keys(KeyFn::Fst, bucket).len() implies i64::MIN <= #[trigger] sum_key(
        bucket,
        group_keys(KeyFn::Fst, bucket)[j],
    ) <= i64::MAX by {
        let kj = group_keys(KeyFn::Fst, bucket)[j];
        lemma_bucket_key_sum(k, n, dest, ls, kj);
        lemma_count_key_bounds(k, flat_lists(ls), kj);
    }
}

/// Every element of a shuffled bucket of pre-aggregates is a pair.
proof fn lemma_bucket_all_pairs(k: KeyFn, n: int, dest: int, ls: Seq<Seq<Elem>>)
    requires
        n >= 1,
        forall|i: int| 0 <= i < ls.len() ==> (#[trigger] ls[i]).len() <= i64::MAX,
    ensures
        all_pairs(bucket_concat(Bucket::ByKey(KeyFn::Fst), n, dest, folded_lists(k, ls))),
    decreases ls.len(),
{
    let gls = folded_lists(k, ls);
    if ls.len() == 0 {
        assert(all_pairs(bucket_concat(Bucket::ByKey(KeyFn::Fst), n, dest, gls)));
    } else {
        let ls0 = ls.drop_last();
        assert(forall|i: int| 0 <= i < ls0.len() ==> ls0[i] == ls[i]);
        assert forall|i: int| 0 <= i < ls0.len() implies (#[trigger] ls0[i]).len()
            <= i64::MAX by {
            assert(ls0[i] == ls[i]);
        }
        lemma_bucket_all_pairs(k, n, dest, ls0);
        assert(gls.drop_last() =~= folded_lists(k, ls0));
        lemma_group_fold_sum(k, ls.last(), 0);
        lemma_select_all_pairs(
            Bucket::ByKey(KeyFn::Fst),
            n,
            gls.len() - 1,
            dest,
            group_fold(k, ls.last()),
        );
        let pre = bucket_concat(Bucket::ByKey(KeyFn::Fst), n, dest, folded_lists(k, ls0));
        let cell = select_list(
            Bucket::ByKey(KeyFn::Fst),
            n,
            gls.len() - 1,
            dest,
            group_fold(k, ls.last()),
        );
        assert(bucket_concat(Bucket::ByKey(KeyFn::Fst), n, dest, gls) == pre + cell);
        assert forall|i: int|
            0 <= i < (pre + cell).len() implies (#[trigger] (pre + cell)[i]) is Pair by {
            if i < pre.len() {
                assert(pre[i] is Pair);
            } else {
                assert((pre + cell)[i] == cell[i - pre.len()]);
                assert(cell[i - pre.len()] is Pair);
            }
        }
    }
}

} // verus!
