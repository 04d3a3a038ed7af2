//! Handles to deferred computations, and the generic combinators that
//! build higher-arity graph shapes: element-wise fan-out over a list
//! of handles, and balanced pairwise tree reduction.

use vstd::prelude::*;
use crate::value::{Value, Val, Elem, Op1, Op2, opt_view, lift1, lift2};
use crate::graph::{Graph, Node, eval, extends, lemma_eval_extends_all, lemma_extends_trans};
use crate::scheduler::Scheduler;

verus! {

/// A cheaply-copyable reference to one graph node.  Copying a handle
/// shares the node: it never duplicates data or recomputes.
#[derive(Clone, Copy, PartialEq, Eq, Structural, Debug)]
pub struct Deferred {
    /// The identity of the referenced node in the arena.
    pub node: usize,
}

impl Deferred {
    /// The handle points at a node of the graph.
    pub open spec fn wf(self, g: Seq<Node>) -> bool {
        (self.node as int) < g.len()
    }

    /// The denotation of the referenced node.
    pub open spec fn dval(self, g: Seq<Node>) -> Option<Val> {
        eval(g, self.node as int)
    }

    /// Wrap an already-available value as an input node.  The optional
    /// name is a diagnostic label with no semantic effect.
    pub fn lift(g: &mut Graph, v: Value, name: Option<&str>) -> (d: Deferred)
        requires
            old(g).wf(),
        ensures
            final(g).wf(),
            extends(old(g)@, final(g)@),
            final(g)@.len() == old(g)@.len() + 1,
            d.wf(final(g)@),
            d.dval(final(g)@) == Some::<Val>(v@),
            forall|i: int|
                0 <= i < old(g)@.len() ==> #[trigger] eval(final(g)@, i) == eval(old(g)@, i),
    {
        let _ = name;
        let id = g.push_input(v);
        Deferred { node: id }
    }

    /// Create a one-parent task node applying `op` to this handle's
    /// eventual value.  Pure graph construction: nothing is evaluated.
    pub fn apply(&self, g: &mut Graph, op: Op1) -> (d: Deferred)
        requires
            old(g).wf(),
            self.wf(old(g)@),
        ensures
            final(g).wf(),
            extends(old(g)@, final(g)@),
            final(g)@.len() == old(g)@.len() + 1,
            d.wf(final(g)@),
            d.dval(final(g)@) == lift1(op, self.dval(old(g)@)),
            forall|i: int|
                0 <= i < old(g)@.len() ==> #[trigger] eval(final(g)@, i) == eval(old(g)@, i),
    {
        let id = g.push_task1(op, self.node);
        Deferred { node: id }
    }

    /// Create a two-parent task node combining this handle's eventual
    /// value with another's.
    pub fn join(&self, g: &mut Graph, other: &Deferred, op: Op2) -> (d: Deferred)
        requires
            old(g).wf(),
            self.wf(old(g)@),
            other.wf(old(g)@),
        ensures
            final(g).wf(),
            extends(old(g)@, final(g)@),
            final(g)@.len() == old(g)@.len() + 1,
            d.wf(final(g)@),
            d.dval(final(g)@) == lift2(op, self.dval(old(g)@), other.dval(old(g)@)),
            forall|i: int|
                0 <= i < old(g)@.len() ==> #[trigger] eval(final(g)@, i) == eval(old(g)@, i),
    {
        let id = g.push_task2(op, self.node, other.node);
        Deferred { node: id }
    }

    /// Trigger evaluation under the given scheduling strategy.  The
    /// result is exactly the node's denotation: absence only on a tag
    /// mismatch somewhere below this node.
    pub fn run<S: Scheduler>(&self, g: &Graph, s: &mut S) -> (r: Option<Value>)
        requires
            g.wf(),
            self.wf(g@),
        ensures
            opt_view(r) == self.dval(g@),
    {
        s.compute(g, self.node)
    }
}

/// The denotations of a sequence of handles.
pub open spec fn evals_of(g: Seq<Node>, ds: Seq<Deferred>) -> Seq<Option<Val>> {
    ds.map_values(|d: Deferred| eval(g, d.node as int))
}

/// All handles of a sequence point at nodes of the graph.
pub open spec fn all_wf(g: Seq<Node>, ds: Seq<Deferred>) -> bool {
    forall|k: int| 0 <= k < ds.len() ==> (#[trigger] ds[k]).wf(g)
}

/// An exact copy of a list of handles.
pub fn copy_defs(v: &Vec<Deferred>) -> (r: Vec<Deferred>)
    ensures
        r@ == v@,
{
    let mut r: Vec<Deferred> = Vec::new();
    let mut i: usize = 0;
    while i < v.len()
        invariant
            i <= v.len(),
            r@ == v@.take(i as int),
        decreases v.len() - i,
    {
        r.push(v[i]);
        proof {
            assert(v@.take(i as int).push(v@[i as int]) =~= v@.take(i + 1));
        }
        i += 1;
    }
    proof {
        assert(v@.take(v@.len() as int) =~= v@);
    }
    r
}

/// Apply one operation independently to every handle of a sequence,
/// one new node per input handle, preserving order.
pub fn batch_apply(g: &mut Graph, defs: &Vec<Deferred>, op: Op1) -> (out: Vec<Deferred>)
    requires
        old(g).wf(),
        all_wf(old(g)@, defs@),
    ensures
        final(g).wf(),
        extends(old(g)@, final(g)@),
        out@.len() == defs@.len(),
        all_wf(final(g)@, out@),
        forall|k: int|
            0 <= k < defs@.len() ==> (#[trigger] out@[k]).dval(final(g)@) == lift1(
                op,
                defs@[k].dval(old(g)@),
            ),
        forall|i: int|
            0 <= i < old(g)@.len() ==> #[trigger] eval(final(g)@, i) == eval(old(g)@, i),
    {
    let ghost g0 = g@;
    let mut out: Vec<Deferred> = Vec::new();
    let mut i: usize = 0;
    proof {
        assert(g@.take(g0.len() as int) =~= g0);
    }
    while i < defs.len()
        invariant
            g.wf(),
            extends(g0, g@),
            graph_bigger_keeps(g0, g@),
            all_wf(g0, defs@),
            i <= defs@.len(),
            out@.len() == i,
            all_wf(g@, out@),
            forall|k: int|
                0 <= k < i ==> (#[trigger] out@[k]).dval(g@) == lift1(op, defs@[k].dval(g0)),
        decreases defs.len() - i,
    {
        let ghost gpre = g@;
        let d = defs[i];
        proof {
            assert(defs@[i as int].wf(g0));
            lemma_eval_extends_all(g0, g@);
        }
        let nd = d.apply(g, op);
        proof {
            lemma_extends_trans(g0, gpre, g@);
            assert forall|k: int|
                0 <= k < i + 1 implies (#[trigger] out@.push(nd)[k]).dval(g@) == lift1(
                op,
                defs@[k].dval(g0),
            ) by {
                if k < i as int {
                    assert(out@[k].dval(gpre) == lift1(op, defs@[k].dval(g0)));
                    assert(eval(g@, out@[k].node as int) == eval(gpre, out@[k].node as int));
                } else {
                    assert(eval(gpre, d.node as int) == eval(g0, d.node as int));
                }
            }
        }
        out.push(nd);
        i += 1;
    }
    proof {
        lemma_eval_extends_all(g0, g@);
    }
    out
}

/// Growing the graph keeps every old node's denotation; stated as a
/// predicate so loops can carry it.
pub open spec fn graph_bigger_keeps(g0: Seq<Node>, g: Seq<Node>) -> bool {
    forall|i: int| 0 <= i < g0.len() ==> #[trigger] eval(g, i) == eval(g0, i)
}

/// One tournament round: adjacent elements are pairwise combined; an
/// unpaired trailing element carries over unchanged.
pub open spec fn pair_pass(op: Op2, s: Seq<Option<Val>>) -> Seq<Option<Val>>
    decreases s.len(),
{
    if s.len() >= 2 {
        seq![lift2(op, s[0], s[1])] + pair_pass(op, s.skip(2))
    } else {
        s
    }
}

pub proof fn lemma_pair_pass_len(op: Op2, s: Seq<Option<Val>>)
    ensures
        pair_pass(op, s).len() == (s.len() + 1) / 2,
    decreases s.len(),
{
    if s.len() >= 2 {
        lemma_pair_pass_len(op, s.skip(2));
    }
}

pub proof fn lemma_pair_pass_index(op: Op2, s: Seq<Option<Val>>, k: int)
    requires
        0 <= k < (s.len() + 1) / 2,
    ensures
        pair_pass(op, s)[k] == if 2 * k + 1 < s.len() {
            lift2(op, s[2 * k], s[2 * k + 1])
        } else {
            s[2 * k]
        },
    decreases s.len(),
{
    lemma_pair_pass_len(op, s);
    if s.len() >= 2 {
        if k > 0 {
            lemma_pair_pass_len(op, s.skip(2));
            lemma_pair_pass_index(op, s.skip(2), k - 1);
            assert(s.skip(2)[2 * (k - 1)] == s[2 * k]);
            if 2 * k + 1 < s.len() {
                assert(s.skip(2)[2 * (k - 1) + 1] == s[2 * k + 1]);
            }
        }
    }
}

/// The rounds of a tree reduction: pair adjacent elements until at
/// most `parts` remain.
pub open spec fn reduce_rounds(op: Op2, s: Seq<Option<Val>>, parts: int) -> Seq<Option<Val>>
    decreases s.len(),
    when parts >= 1
    via reduce_rounds_decreases
{
    if s.len() <= parts {
        s
    } else {
        reduce_rounds(op, pair_pass(op, s), parts)
    }
}

#[via_fn]
proof fn reduce_rounds_decreases(op: Op2, s: Seq<Option<Val>>, parts: int) {
    if !(s.len() <= parts) {
        lemma_pair_pass_len(op, s);
    }
}

pub proof fn lemma_reduce_rounds_len(op: Op2, s: Seq<Option<Val>>, parts: int)
    requires
        parts >= 1,
        s.len() >= 1,
    ensures
        1 <= reduce_rounds(op, s, parts).len(),
        reduce_rounds(op, s, parts).len() <= s.len(),
        s.len() > parts ==> reduce_rounds(op, s, parts).len() <= parts,
    decreases s.len(),
{
    if s.len() > parts {
        lemma_pair_pass_len(op, s);
        lemma_reduce_rounds_len(op, pair_pass(op, s), parts);
    }
}

/// Combine all handles into at most `parts` via a balanced binary
/// tournament, bounding dependency depth logarithmically.  `None` only
/// on an empty input.
pub fn tree_reduce_until(g: &mut Graph, defs: &Vec<Deferred>, parts: usize, op: Op2) -> (out:
    Option<Vec<Deferred>>)
    requires
        old(g).wf(),
        parts >= 1,
        all_wf(old(g)@, defs@),
    ensures
        final(g).wf(),
        extends(old(g)@, final(g)@),
        graph_bigger_keeps(old(g)@, final(g)@),
        out is None <==> defs@.len() == 0,
        match out {
            Some(v) => all_wf(final(g)@, v@) && evals_of(final(g)@, v@) == reduce_rounds(
                op,
                evals_of(old(g)@, defs@),
                parts as int,
            ),
            None => true,
        },
    decreases defs@.len(),
{
    let ghost g0 = g@;
    proof {
        assert(g@.take(g0.len() as int) =~= g0);
    }
    if defs.len() == 0 {
        return None;
    }
    if defs.len() <= parts {
        let r = copy_defs(defs);
        proof {
            assert(evals_of(g@, r@) =~= reduce_rounds(op, evals_of(g0, defs@), parts as int));
        }
        return Some(r);
    }
    let ghost s0 = evals_of(g0, defs@);
    // one tournament round
    let mut pass: Vec<Deferred> = Vec::new();
    let mut i: usize = 0;
    while i + 1 < defs.len()
        invariant
            g.wf(),
            extends(g0, g@),
            graph_bigger_keeps(g0, g@),
            all_wf(g0, defs@),
            parts >= 1,
            defs@.len() > parts,
            i <= defs@.len(),
            i % 2 == 0,
            s0 == evals_of(g0, defs@),
            pass@.len() == i / 2,
            all_wf(g@, pass@),
            forall|k: int|
                0 <= k < i / 2 ==> (#[trigger] pass@[k]).dval(g@) == lift2(
                    op,
                    s0[2 * k],
                    s0[2 * k + 1],
                ),
        decreases defs.len() - i,
    {
        let ghost gpre = g@;
        let a = defs[i];
        let b = defs[i + 1];
        proof {
            assert(defs@[i as int].wf(g0));
            assert(defs@[i + 1].wf(g0));
        }
        let nd = a.join(g, &b, op);
        proof {
            lemma_extends_trans(g0, gpre, g@);
            assert(a.dval(gpre) == s0[i as int]);
            assert(b.dval(gpre) == s0[i + 1]);
            assert forall|k: int|
                0 <= k < i / 2 + 1 implies (#[trigger] pass@.push(nd)[k]).dval(g@) == lift2(
                op,
                s0[2 * k],
                s0[2 * k + 1],
            ) by {
                if k < i as int / 2 {
                    assert(pass@[k].dval(gpre) == lift2(op, s0[2 * k], s0[2 * k + 1]));
                    assert(eval(g@, pass@[k].node as int) == eval(gpre, pass@[k].node as int));
                } else {
                    assert(2 * k == i as int);
                }
            }
        }
        pass.push(nd);
        i += 2;
    }
    if defs.len() % 2 == 1 {
        let last = defs[defs.len() - 1];
        proof {
            assert(defs@[defs@.len() - 1].wf(g0));
        }
        pass.push(last);
    }
    proof {
        lemma_pair_pass_len(op, s0);
        assert forall|k: int|
            0 <= k < pass@.len() implies evals_of(g@, pass@)[k] == pair_pass(op, s0)[k] by {
            lemma_pair_pass_index(op, s0, k);
            if 2 * k + 1 < s0.len() {
                assert(pass@[k].dval(g@) == lift2(op, s0[2 * k], s0[2 * k + 1]));
            } else {
                assert(pass@[k] == defs@[defs@.len() - 1]);
                assert(pass@[k].dval(g@) == eval(g0, defs@[defs@.len() - 1].node as int));
            }
        }
        assert(evals_of(g@, pass@) =~= pair_pass(op, s0));
    }
    let ghost gmid = g@;
    let out = tree_reduce_until(g, &pass, parts, op);
    proof {
        lemma_extends_trans(g0, gmid, g@);
        assert forall|i2: int| 0 <= i2 < g0.len() implies #[trigger] eval(g@, i2) == eval(
            g0,
            i2,
        ) by {
            assert(eval(gmid, i2) == eval(g0, i2));
        }
        match &out {
            Some(v) => {
                assert(evals_of(g@, v@) == reduce_rounds(op, pair_pass(op, s0), parts as int));
                assert(reduce_rounds(op, s0, parts as int) == reduce_rounds(
                    op,
                    pair_pass(op, s0),
                    parts as int,
                ));
            },
            None => {
                assert(pass@.len() >= 1);
                assert(false);
            },
        }
    }
    out
}

/// Combine all handles into one via a balanced binary tournament.
/// `None` only on an empty input.
pub fn tree_reduce(g: &mut Graph, defs: &Vec<Deferred>, op: Op2) -> (out: Option<Deferred>)
    requires
        old(g).wf(),
        all_wf(old(g)@, defs@),
    ensures
        final(g).wf(),
        extends(old(g)@, final(g)@),
        graph_bigger_keeps(old(g)@, final(g)@),
        out is None <==> defs@.len() == 0,
        match out {
            Some(d) => d.wf(final(g)@) && d.dval(final(g)@) == reduce_rounds(
                op,
                evals_of(old(g)@, defs@),
                1,
            )[0],
            None => true,
        },
{
    let r = tree_reduce_until(g, defs, 1, op);
    match r {
        Some(v) => {
            proof {
                lemma_reduce_rounds_len(op, evals_of(old(g)@, defs@), 1);
                assert(evals_of(g@, v@).len() >= 1);
            }
            Some(v[0])
        },
        None => None,
    }
}

/// The value is a materialized list.
pub open spec fn is_list(v: Option<Val>) -> bool {
    match v {
        Some(Val::List(_)) => true,
        _ => false,
    }
}

pub open spec fn all_lists(s: Seq<Option<Val>>) -> bool {
    forall|i: int| 0 <= i < s.len() ==> is_list(#[trigger] s[i])
}

pub open spec fn list_of(v: Option<Val>) -> Seq<Elem> {
    match v {
        Some(Val::List(l)) => l,
        _ => Seq::<Elem>::empty(),
    }
}

/// The concatenation, in order, of a sequence of materialized lists.
pub open spec fn cat_all(s: Seq<Option<Val>>) -> Seq<Elem>
    decreases s.len(),
{
    if s.len() == 0 {
        Seq::<Elem>::empty()
    } else {
        list_of(s[0]) + cat_all(s.drop_first())
    }
}

/// One concatenation round preserves the ordered flattening.
pub proof fn lemma_pair_pass_concat(s: Seq<Option<Val>>)
    requires
        all_lists(s),
    ensures
        all_lists(pair_pass(Op2::Concat, s)),
        cat_all(pair_pass(Op2::Concat, s)) == cat_all(s),
    decreases s.len(),
{
    if s.len() >= 2 {
        let rest = s.skip(2);
        assert(all_lists(rest)) by {
            assert(forall|i: int| 0 <= i < rest.len() ==> rest[i] == s[i + 2]);
        }
        lemma_pair_pass_concat(rest);
        let h = lift2(Op2::Concat, s[0], s[1]);
        assert(h == Some(Val::List(list_of(s[0]) + list_of(s[1]))));
        let pp = pair_pass(Op2::Concat, s);
        assert(pp == seq![h] + pair_pass(Op2::Concat, rest));
        assert(pp[0] == h);
        assert(pp.drop_first() =~= pair_pass(Op2::Concat, rest));
        assert(s.drop_first().drop_first() =~= rest);
        assert(s.drop_first()[0] == s[1]);
        reveal_with_fuel(cat_all, 3);
        assert(cat_all(s) == list_of(s[0]) + (list_of(s[1]) + cat_all(rest)));
        assert(cat_all(pp) == (list_of(s[0]) + list_of(s[1])) + cat_all(rest));
        assert((list_of(s[0]) + list_of(s[1])) + cat_all(rest) =~= list_of(s[0]) + (list_of(s[1])
            + cat_all(rest)));
    }
}

/// Tree reduction with concatenation yields exactly the ordered
/// flattening of its inputs.
pub proof fn lemma_tree_concat(s: Seq<Option<Val>>)
    requires
        all_lists(s),
        s.len() >= 1,
    ensures
        reduce_rounds(Op2::Concat, s, 1).len() == 1,
        reduce_rounds(Op2::Concat, s, 1)[0] == Some(Val::List(cat_all(s))),
    decreases s.len(),
{
    if s.len() == 1 {
        reveal_with_fuel(cat_all, 2);
        assert(reduce_rounds(Op2::Concat, s, 1) == s);
        assert(cat_all(s) =~= list_of(s[0]));
        assert(is_list(s[0]));
    } else {
        lemma_pair_pass_concat(s);
        lemma_pair_pass_len(Op2::Concat, s);
        lemma_tree_concat(pair_pass(Op2::Concat, s));
    }
}

/// If any input of a concatenation tree is not a materialized list,
/// absence propagates to the single result.
pub proof fn lemma_tree_concat_bad(s: Seq<Option<Val>>)
    requires
        s.len() >= 2,
        !all_lists(s),
    ensures
        reduce_rounds(Op2::Concat, s, 1).len() == 1,
        reduce_rounds(Op2::Concat, s, 1)[0] is None,
    decreases s.len(),
{
    lemma_pair_pass_len(Op2::Concat, s);
    let pp = pair_pass(Op2::Concat, s);
    let i = choose|i: int| 0 <= i < s.len() && !is_list(s[i]);
    if s.len() == 2 {
        assert(pp =~= seq![lift2(Op2::Concat, s[0], s[1])]);
        assert(lift2(Op2::Concat, s[0], s[1]) is None);
        reveal_with_fuel(reduce_rounds, 3);
        assert(reduce_rounds(Op2::Concat, s, 1) == pp);
    } else {
        let k = i / 2;
        lemma_pair_pass_index(Op2::Concat, s, k);
        if 2 * k + 1 < s.len() {
            assert(pp[k] == lift2(Op2::Concat, s[2 * k], s[2 * k + 1]));
            assert(!is_list(pp[k]));
        } else {
            assert(pp[k] == s[2 * k] && 2 * k == i);
            assert(!is_list(pp[k]));
        }
        assert(!all_lists(pp));
        lemma_tree_concat_bad(pp);
    }
}

/// The value is a materialized integer atom.
pub open spec fn is_int(v: Option<Val>) -> bool {
    match v {
        Some(Val::Atom(Elem::Int(_))) => true,
        _ => false,
    }
}

pub open spec fn int_of(v: Option<Val>) -> int {
    match v {
        Some(Val::Atom(Elem::Int(x))) => x as int,
        _ => 0,
    }
}

pub open spec fn all_ints_nonneg(s: Seq<Option<Val>>) -> bool {
    forall|i: int| 0 <= i < s.len() ==> is_int(#[trigger] s[i]) && int_of(s[i]) >= 0
}

/// The total of a sequence of materialized integers.
pub open spec fn isum(s: Seq<Option<Val>>) -> int
    decreases s.len(),
{
    if s.len() == 0 {
        0
    } else {
        int_of(s[0]) + isum(s.drop_first())
    }
}

pub proof fn lemma_isum_nonneg(s: Seq<Option<Val>>)
    requires
        all_ints_nonneg(s),
    ensures
        isum(s) >= 0,
    decreases s.len(),
{
    if s.len() > 0 {
        let rest = s.drop_first();
        assert(all_ints_nonneg(rest)) by {
            assert(forall|i: int| 0 <= i < rest.len() ==> rest[i] == s[i + 1]);
        }
        lemma_isum_nonneg(rest);
    }
}

/// One addition round preserves the total and never overflows when the
/// total is representable and every summand is non-negative.
pub proof fn lemma_pair_pass_add(s: Seq<Option<Val>>)
    requires
        all_ints_nonneg(s),
        isum(s) <= i64::MAX,
    ensures
        all_ints_nonneg(pair_pass(Op2::Add, s)),
        isum(pair_pass(Op2::Add, s)) == isum(s),
    decreases s.len(),
{
    if s.len() >= 2 {
        let rest = s.skip(2);
        assert(all_ints_nonneg(rest)) by {
            assert(forall|i: int| 0 <= i < rest.len() ==> rest[i] == s[i + 2]);
        }
        assert(s.drop_first().drop_first() =~= rest);
        assert(s.drop_first()[0] == s[1]);
        reveal_with_fuel(isum, 3);
        assert(isum(s) == int_of(s[0]) + int_of(s[1]) + isum(rest));
        lemma_isum_nonneg(rest);
        lemma_pair_pass_add(rest);
        let h = lift2(Op2::Add, s[0], s[1]);
        assert(int_of(s[0]) + int_of(s[1]) <= i64::MAX);
        assert(h == Some(Val::Atom(Elem::Int((int_of(s[0]) + int_of(s[1])) as i64))));
        let pp = pair_pass(Op2::Add, s);
        assert(pp == seq![h] + pair_pass(Op2::Add, rest));
        assert(pp.drop_first() =~= pair_pass(Op2::Add, rest));
        assert(pp[0] == h);
        assert forall|i: int| 0 <= i < pp.len() implies is_int(#[trigger] pp[i]) && int_of(pp[i])
            >= 0 by {
            if i > 0 {
                assert(pp[i] == pair_pass(Op2::Add, rest)[i - 1]);
            }
        }
    }
}

/// If any input of an addition tree is not a materialized integer,
/// absence propagates to the single result.
pub proof fn lemma_tree_add_bad(s: Seq<Option<Val>>)
    requires
        s.len() >= 2,
        !(forall|i: int| 0 <= i < s.len() ==> is_int(#[trigger] s[i])),
    ensures
        reduce_rounds(Op2::Add, s, 1).len() == 1,
        reduce_rounds(Op2::Add, s, 1)[0] is None,
    decreases s.len(),
{
    lemma_pair_pass_len(Op2::Add, s);
    let pp = pair_pass(Op2::Add, s);
    let i = choose|i: int| 0 <= i < s.len() && !is_int(s[i]);
    if s.len() == 2 {
        assert(pp =~= seq![lift2(Op2::Add, s[0], s[1])]);
        assert(lift2(Op2::Add, s[0], s[1]) is None);
        reveal_with_fuel(reduce_rounds, 3);
        assert(reduce_rounds(Op2::Add, s, 1) == pp);
    } else {
        let k = i / 2;
        lemma_pair_pass_index(Op2::Add, s, k);
        if 2 * k + 1 < s.len() {
            assert(pp[k] == lift2(Op2::Add, s[2 * k], s[2 * k + 1]));
            assert(!is_int(pp[k]));
        } else {
            assert(pp[k] == s[2 * k] && 2 * k == i);
            assert(!is_int(pp[k]));
        }
        assert(!(forall|j: int| 0 <= j < pp.len() ==> is_int(#[trigger] pp[j])));
        lemma_tree_add_bad(pp);
    }
}

/// Tree reduction with addition yields exactly the total of its
/// inputs, whatever the tree shape.
pub proof fn lemma_tree_add(s: Seq<Option<Val>>)
    requires
        all_ints_nonneg(s),
        s.len() >= 1,
        isum(s) <= i64::MAX,
    ensures
        reduce_rounds(Op2::Add, s, 1).len() == 1,
        reduce_rounds(Op2::Add, s, 1)[0] == Some(Val::Atom(Elem::Int(isum(s) as i64))),
    decreases s.len(),
{
    if s.len() == 1 {
        assert(reduce_rounds(Op2::Add, s, 1) == s);
        assert(isum(s) == int_of(s[0]) + isum(s.drop_first()));
        assert(s.drop_first().len() == 0);
        assert(is_int(s[0]) && int_of(s[0]) >= 0);
    } else {
        lemma_pair_pass_add(s);
        lemma_pair_pass_len(Op2::Add, s);
        lemma_tree_add(pair_pass(Op2::Add, s));
    }
}

} // verus!
