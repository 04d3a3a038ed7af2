//! The user-facing sequence-of-partitions abstraction: an ordered
//! sequence of deferred handles, one per partition, composed from the
//! combinators and the shuffle engine.  Every method is pure graph
//! construction except `run`, which hands the wired-up root to a
//! scheduler.

use vstd::prelude::*;
use crate::value::{Value, Val, Elem, Op1, Op2, Bucket, KeyFn, MapFn, Pred, lift1, opt_view};
use crate::graph::{Graph, Node, eval, extends, lemma_extends_trans};
use crate::deferred::{
    Deferred, all_wf, evals_of, batch_apply, tree_reduce, graph_bigger_keeps, all_lists, list_of,
    cat_all, is_list, is_int, int_of, isum, lemma_tree_concat, lemma_tree_concat_bad,
    lemma_tree_add, lemma_tree_add_bad, all_ints_nonneg, reduce_rounds, copy_defs,
};
use crate::shuffle::{bucket_val, folded_locals};
use crate::scheduler::Scheduler;

verus! {

/// An ordered sequence of deferred partitions.
pub struct Collection {
    partitions: Vec<Deferred>,
}

impl Clone for Collection {
    /// Cloning shares the same partition handles: no node is
    /// duplicated and nothing is recomputed.
    fn clone(&self) -> (c: Self)
        ensures
            c@ == self@,
    {
        Collection { partitions: copy_defs(&self.partitions) }
    }
}

impl View for Collection {
    type V = Seq<Deferred>;

    closed spec fn view(&self) -> Seq<Deferred> {
        self.partitions@
    }
}

/// The total element count across a sequence of partition values.
pub open spec fn total_count(s: Seq<Option<Val>>) -> int
    decreases s.len(),
{
    if s.len() == 0 {
        0
    } else {
        list_of(s[0]).len() + total_count(s.drop_first())
    }
}

proof fn lemma_total_count_parts(s: Seq<Option<Val>>)
    ensures
        total_count(s) >= 0,
        forall|k: int| 0 <= k < s.len() ==> (#[trigger] list_of(s[k])).len() <= total_count(s),
    decreases s.len(),
{
    if s.len() > 0 {
        lemma_total_count_parts(s.drop_first());
        assert(forall|k: int| 1 <= k < s.len() ==> s.drop_first()[k - 1] == s[k]);
    }
}

/// The per-partition lengths sum to the total count.
proof fn lemma_length_sum(s: Seq<Option<Val>>, cs: Seq<Option<Val>>)
    requires
        all_lists(s),
        cs.len() == s.len(),
        forall|k: int| 0 <= k < s.len() ==> #[trigger] cs[k] == lift1(Op1::Length, s[k]),
        total_count(s) <= i64::MAX,
    ensures
        all_ints_nonneg(cs),
        isum(cs) == total_count(s),
    decreases s.len(),
{
    lemma_total_count_parts(s);
    if s.len() > 0 {
        let st = s.drop_first();
        let ct = cs.drop_first();
        assert(all_lists(st)) by {
            assert(forall|k: int| 0 <= k < st.len() ==> st[k] == s[k + 1]);
        }
        assert forall|k: int| 0 <= k < st.len() implies #[trigger] ct[k] == lift1(
            Op1::Length,
            st[k],
        ) by {
            assert(ct[k] == cs[k + 1] && st[k] == s[k + 1]);
        }
        assert(total_count(st) <= total_count(s)) by {
            lemma_total_count_parts(st);
        }
        lemma_length_sum(st, ct);
        assert(is_list(s[0]));
        assert(list_of(s[0]).len() <= total_count(s));
        assert(cs[0] == Some(Val::Atom(Elem::Int(list_of(s[0]).len() as i64))));
        assert forall|k: int| 0 <= k < cs.len() implies is_int(#[trigger] cs[k]) && int_of(cs[k])
            >= 0 by {
            if k > 0 {
                assert(ct[k - 1] == cs[k]);
            }
        }
    }
}

impl Collection {
    /// Every partition handle points at a node of the graph.
    pub open spec fn wf(&self, g: Seq<Node>) -> bool {
        all_wf(g, self@)
    }

    /// The denotations of the partitions.
    pub open spec fn pvals(&self, g: Seq<Node>) -> Seq<Option<Val>> {
        evals_of(g, self@)
    }

    /// Wrap a finite in-memory sequence of values as the sole initial
    /// partition.
    pub fn from_vec(g: &mut Graph, vs: Vec<Elem>) -> (c: Collection)
        requires
            old(g).wf(),
        ensures
            final(g).wf(),
            extends(old(g)@, final(g)@),
            graph_bigger_keeps(old(g)@, final(g)@),
            c.wf(final(g)@),
            c@.len() == 1,
            c.pvals(final(g)@)[0] == Some(Val::List(vs@)),
    {
        let ghost vsg = vs@;
        let d = Deferred::lift(g, Value::List(vs), None);
        let c = Collection { partitions: vec![d] };
        proof {
            assert(c@ =~= seq![d]);
        }
        c
    }

    /// The handle of one partition: partitions are orderable,
    /// independently accessible sequences.
    pub fn partition_at(&self, i: usize) -> (d: Deferred)
        requires
            i < self@.len(),
        ensures
            d == self@[i as int],
    {
        self.partitions[i]
    }

    /// How many partitions this collection holds.
    pub fn n_partitions(&self) -> (n: usize)
        ensures
            n == self@.len(),
    {
        self.partitions.len()
    }

    /// A collection holding this collection's partitions followed by
    /// the other's.  Pure handle sharing: no data moves.
    pub fn concat(&self, other: &Collection) -> (c: Collection)
        ensures
            c@ == self@ + other@,
    {
        let mut nps = copy_defs(&self.partitions);
        let mut i: usize = 0;
        while i < other.partitions.len()
            invariant
                i <= other@.len(),
                nps@ == self@ + other@.take(i as int),
            decreases other.partitions.len() - i,
        {
            nps.push(other.partitions[i]);
            proof {
                assert(self@ + other@.take(i + 1) =~= (self@ + other@.take(i as int)).push(
                    other@[i as int],
                ));
            }
            i += 1;
        }
        proof {
            assert(self@ + other@.take(other@.len() as int) =~= self@ + other@);
            assert(nps@ == self@ + other@);
        }
        Collection { partitions: nps }
    }

    /// Transform every element, partition-wise.
    pub fn map(&self, g: &mut Graph, f: MapFn) -> (c: Collection)
        requires
            old(g).wf(),
            self.wf(old(g)@),
        ensures
            final(g).wf(),
            extends(old(g)@, final(g)@),
            graph_bigger_keeps(old(g)@, final(g)@),
            c.wf(final(g)@),
            c@.len() == self@.len(),
            forall|k: int|
                0 <= k < self@.len() ==> c.pvals(final(g)@)[k] == lift1(
                    Op1::MapEach(f),
                    #[trigger] self.pvals(old(g)@)[k],
                ),
    {
        let out = batch_apply(g, &self.partitions, Op1::MapEach(f));
        Collection { partitions: out }
    }

    /// Keep the elements satisfying the predicate, partition-wise.
    pub fn filter(&self, g: &mut Graph, p: Pred) -> (c: Collection)
        requires
            old(g).wf(),
            self.wf(old(g)@),
        ensures
            final(g).wf(),
            extends(old(g)@, final(g)@),
            graph_bigger_keeps(old(g)@, final(g)@),
            c.wf(final(g)@),
            c@.len() == self@.len(),
            forall|k: int|
                0 <= k < self@.len() ==> c.pvals(final(g)@)[k] == lift1(
                    Op1::Filter(p),
                    #[trigger] self.pvals(old(g)@)[k],
                ),
    {
        let out = batch_apply(g, &self.partitions, Op1::Filter(p));
        Collection { partitions: out }
    }

    /// Sort each partition independently by key, stably.  This is not
    /// a global sort across partitions.
    pub fn sort_by(&self, g: &mut Graph, k: KeyFn) -> (c: Collection)
        requires
            old(g).wf(),
            self.wf(old(g)@),
        ensures
            final(g).wf(),
            extends(old(g)@, final(g)@),
            graph_bigger_keeps(old(g)@, final(g)@),
            c.wf(final(g)@),
            c@.len() == self@.len(),
            forall|j: int|
                0 <= j < self@.len() ==> c.pvals(final(g)@)[j] == lift1(
                    Op1::SortBy(k),
                    #[trigger] self.pvals(old(g)@)[j],
                ),
    {
        let out = batch_apply(g, &self.partitions, Op1::SortBy(k));
        Collection { partitions: out }
    }

    /// Redistribute the elements into `n` partitions by a bucket
    /// function.  Each element lands in exactly one output partition.
    pub fn partition(&self, g: &mut Graph, n: usize, b: Bucket) -> (c: Collection)
        requires
            old(g).wf(),
            self.wf(old(g)@),
            n >= 1,
        ensures
            final(g).wf(),
            extends(old(g)@, final(g)@),
            graph_bigger_keeps(old(g)@, final(g)@),
            c.wf(final(g)@),
            c@.len() == n,
            forall|dest: int|
                0 <= dest < n ==> #[trigger] c.pvals(final(g)@)[dest] == bucket_val(
                    b,
                    n as int,
                    dest,
                    self.pvals(old(g)@),
                ),
    {
        let out = crate::shuffle::partition(g, &self.partitions, n, b);
        let c = Collection { partitions: out };
        proof {
            assert forall|dest: int|
                0 <= dest < n implies #[trigger] c.pvals(g@)[dest] == bucket_val(
                b,
                n as int,
                dest,
                self.pvals(old(g)@),
            ) by {
                assert(c@[dest].dval(g@) == bucket_val(
                    b,
                    n as int,
                    dest,
                    self.pvals(old(g)@),
                ));
            }
        }
        c
    }

    /// Pure repartition into `n` chunks routed by source partition
    /// index; no key logic.
    pub fn split(&self, g: &mut Graph, n: usize) -> (c: Collection)
        requires
            old(g).wf(),
            self.wf(old(g)@),
            n >= 1,
        ensures
            final(g).wf(),
            extends(old(g)@, final(g)@),
            graph_bigger_keeps(old(g)@, final(g)@),
            c.wf(final(g)@),
            c@.len() == n,
            forall|dest: int|
                0 <= dest < n ==> #[trigger] c.pvals(final(g)@)[dest] == bucket_val(
                    Bucket::Index,
                    n as int,
                    dest,
                    self.pvals(old(g)@),
                ),
    {
        self.partition(g, n, Bucket::Index)
    }

    /// Redistribute by a hash of each element's key: equal keys always
    /// share an output partition; distinct keys may collide.
    pub fn partition_by_key(&self, g: &mut Graph, n: usize, k: KeyFn) -> (c: Collection)
        requires
            old(g).wf(),
            self.wf(old(g)@),
            n >= 1,
        ensures
            final(g).wf(),
            extends(old(g)@, final(g)@),
            graph_bigger_keeps(old(g)@, final(g)@),
            c.wf(final(g)@),
            c@.len() == n,
            forall|dest: int|
                0 <= dest < n ==> #[trigger] c.pvals(final(g)@)[dest] == bucket_val(
                    Bucket::ByKey(k),
                    n as int,
                    dest,
                    self.pvals(old(g)@),
                ),
    {
        self.partition(g, n, Bucket::ByKey(k))
    }

    /// Grouped aggregation: count elements per key within each
    /// partition, shuffle the partial counts by key hash into `n`
    /// partitions, and merge equal keys' partial counts.
    pub fn fold_by(&self, g: &mut Graph, k: KeyFn, n: usize) -> (c: Collection)
        requires
            old(g).wf(),
            self.wf(old(g)@),
            n >= 1,
        ensures
            final(g).wf(),
            extends(old(g)@, final(g)@),
            graph_bigger_keeps(old(g)@, final(g)@),
            c.wf(final(g)@),
            c@.len() == n,
            forall|dest: int|
                0 <= dest < n ==> #[trigger] c.pvals(final(g)@)[dest] == lift1(
                    Op1::MergeFold,
                    bucket_val(
                        Bucket::ByKey(KeyFn::Fst),
                        n as int,
                        dest,
                        folded_locals(k, self.pvals(old(g)@)),
                    ),
                ),
    {
        let out = crate::shuffle::fold_by(g, &self.partitions, k, n);
        let c = Collection { partitions: out };
        proof {
            assert forall|dest: int|
                0 <= dest < n implies #[trigger] c.pvals(g@)[dest] == lift1(
                Op1::MergeFold,
                bucket_val(
                    Bucket::ByKey(KeyFn::Fst),
                    n as int,
                    dest,
                    folded_locals(k, self.pvals(old(g)@)),
                ),
            ) by {
                assert(c@[dest].dval(g@) == lift1(
                    Op1::MergeFold,
                    bucket_val(
                        Bucket::ByKey(KeyFn::Fst),
                        n as int,
                        dest,
                        folded_locals(k, self.pvals(old(g)@)),
                    ),
                ));
            }
        }
        c
    }

    /// Element frequencies: grouped counting keyed by the element
    /// itself.
    pub fn frequencies(&self, g: &mut Graph, n: usize) -> (c: Collection)
        requires
            old(g).wf(),
            self.wf(old(g)@),
            n >= 1,
        ensures
            final(g).wf(),
            extends(old(g)@, final(g)@),
            graph_bigger_keeps(old(g)@, final(g)@),
            c.wf(final(g)@),
            c@.len() == n,
            forall|dest: int|
                0 <= dest < n ==> #[trigger] c.pvals(final(g)@)[dest] == lift1(
                    Op1::MergeFold,
                    bucket_val(
                        Bucket::ByKey(KeyFn::Fst),
                        n as int,
                        dest,
                        folded_locals(KeyFn::Fst, self.pvals(old(g)@)),
                    ),
                ),
    {
        self.fold_by(g, KeyFn::Fst, n)
    }

    /// The total element count, as a single-partition collection
    /// holding one integer; `0` for a collection with no partitions.
    pub fn count(&self, g: &mut Graph) -> (c: Collection)
        requires
            old(g).wf(),
            self.wf(old(g)@),
        ensures
            final(g).wf(),
            extends(old(g)@, final(g)@),
            graph_bigger_keeps(old(g)@, final(g)@),
            c.wf(final(g)@),
            c@.len() == 1,
            all_lists(self.pvals(old(g)@)) && total_count(self.pvals(old(g)@)) <= i64::MAX
                ==> c.pvals(final(g)@)[0] == Some(
                Val::List(seq![Elem::Int(total_count(self.pvals(old(g)@)) as i64)]),
            ),
            !all_lists(self.pvals(old(g)@)) ==> c.pvals(final(g)@)[0] is None,
    {
        let ghost g0 = g@;
        let ghost pv0 = self.pvals(g0);
        if self.partitions.len() == 0 {
            let mut one: Vec<Elem> = Vec::new();
            one.push(Elem::Int(0));
            let d = Deferred::lift(g, Value::List(one), None);
            let c = Collection { partitions: vec![d] };
            proof {
                assert(g@.take(g0.len() as int) =~= g0);
                assert(c@ =~= seq![d]);
                assert(seq![Elem::Int(0)] =~= seq![Elem::Int(total_count(pv0) as i64)]);
            }
            return c;
        }
        let lens = batch_apply(g, &self.partitions, Op1::Length);
        let ghost g1 = g@;
        let r = tree_reduce(g, &lens, Op2::Add);
        let total: Deferred;
        match r {
            Some(d) => {
                total = d;
            },
            None => {
                proof {
                    assert(false);
                }
                total = Deferred { node: 0 };
            },
        }
        let ghost g2 = g@;
        let single = total.apply(g, Op1::Singleton);
        let c = Collection { partitions: vec![single] };
        proof {
            lemma_extends_trans(g0, g1, g2);
            lemma_extends_trans(g0, g2, g@);
            assert forall|i: int| 0 <= i < g0.len() implies #[trigger] eval(g@, i) == eval(
                g0,
                i,
            ) by {
                assert(eval(g1, i) == eval(g0, i));
                assert(eval(g2, i) == eval(g1, i));
            }
            assert(c@ =~= seq![single]);
            let cs = evals_of(g1, lens@);
            assert forall|k: int| 0 <= k < pv0.len() implies #[trigger] cs[k] == lift1(
                Op1::Length,
                pv0[k],
            ) by {
                assert(lens@[k].dval(g1) == lift1(Op1::Length, pv0[k]));
            }
            assert(total.dval(g2) == reduce_rounds(Op2::Add, cs, 1)[0]);
            assert(single.dval(g@) == lift1(Op1::Singleton, total.dval(g2)));
            if all_lists(pv0) && total_count(pv0) <= i64::MAX {
                lemma_length_sum(pv0, cs);
                lemma_tree_add(cs);
            }
            if !all_lists(pv0) {
                let w = choose|w: int| 0 <= w < pv0.len() && !is_list(pv0[w]);
                assert(!is_int(cs[w]));
                if cs.len() >= 2 {
                    lemma_tree_add_bad(cs);
                } else {
                    assert(w == 0);
                    assert(reduce_rounds(Op2::Add, cs, 1) == cs);
                }
            }
        }
        c
    }

    /// Materialize the whole collection: the concatenation, in
    /// partition order, of every partition's contents, or absence when
    /// there are no partitions or any partition fails to materialize a
    /// list.
    pub fn run<S: Scheduler>(&self, g: &mut Graph, s: &mut S) -> (r: Option<Vec<Elem>>)
        requires
            old(g).wf(),
            self.wf(old(g)@),
        ensures
            final(g).wf(),
            extends(old(g)@, final(g)@),
            graph_bigger_keeps(old(g)@, final(g)@),
            match r {
                Some(vs) => self@.len() >= 1 && all_lists(self.pvals(old(g)@)) && vs@ == cat_all(
                    self.pvals(old(g)@),
                ),
                None => self@.len() == 0 || !all_lists(self.pvals(old(g)@)),
            },
    {
        let ghost g0 = g@;
        let ghost pv0 = self.pvals(g0);
        proof {
            assert(g@.take(g0.len() as int) =~= g0);
        }
        let cat = tree_reduce(g, &self.partitions, Op2::Concat);
        match cat {
            Some(d) => {
                proof {
                    if all_lists(pv0) {
                        lemma_tree_concat(pv0);
                    } else {
                        if pv0.len() >= 2 {
                            lemma_tree_concat_bad(pv0);
                        } else {
                            assert(reduce_rounds(Op2::Concat, pv0, 1) == pv0);
                        }
                    }
                }
                let rv = d.run(g, s);
                match rv {
                    Some(Value::List(vs)) => {
                        proof {
                            assert(opt_view(Some(Value::List(vs))) == d.dval(g@));
                        }
                        Some(vs)
                    },
                    _ => None,
                }
            },
            None => None,
        }
    }
}

} // verus!
