//! Scheduling strategies: consume the graph rooted at a node and
//! produce its materialized value.
//!
//! The contract every strategy must meet is the same: the returned
//! value is exactly the node's denotation (`eval`).  Each node is
//! evaluated at most once per run, after all of its parents; beyond
//! that the evaluation order is strategy-defined.

use vstd::prelude::*;
use crate::value::{Value, Val, opt_view, eval_op1, eval_op2, lift1, lift2};
use crate::graph::{Graph, Node, eval, graph_wf, node_wf};

verus! {

/// A strategy that materializes one node of a graph.
pub trait Scheduler {
    /// Evaluate the graph rooted at `root` and return its value, or
    /// absence if a tag mismatch occurs anywhere below the root.
    fn compute(&mut self, g: &Graph, root: usize) -> (r: Option<Value>)
        requires
            g.wf(),
            root < g@.len(),
        ensures
            opt_view(r) == eval(g@, root as int),
    ;
}

/// Re-running the same unmodified graph yields identical results,
/// whatever the strategy and however often: every `compute` is pinned
/// to the node's denotation, so any two results of materializing the
/// same node of the same graph are equal.
pub proof fn lemma_rerun_deterministic(g: Seq<Node>, root: int, r1: Option<Val>, r2: Option<Val>)
    requires
        r1 == eval(g, root),
        r2 == eval(g, root),
    ensures
        r1 == r2,
{
}

/// Node `j` occurs somewhere in the schedule `ord`.
pub open spec fn in_ord(ord: Seq<usize>, j: usize) -> bool {
    exists|l: int| 0 <= l < ord.len() && ord[l] == j
}

/// The parents of the node scheduled at position `k` are scheduled
/// strictly earlier.
pub open spec fn parents_before(g: Seq<Node>, ord: Seq<usize>, k: int) -> bool {
    match g[ord[k] as int] {
        Node::Input(_) => true,
        Node::Task1(_, p) => exists|l: int| 0 <= l < k && ord[l] == p,
        Node::Task2(_, p, q) => (exists|l: int| 0 <= l < k && ord[l] == p) && (exists|l: int|
            0 <= l < k && ord[l] == q),
    }
}

/// A valid schedule: every entry is a node of the graph whose parents
/// appear earlier in the schedule.
pub open spec fn order_ok(g: Seq<Node>, ord: Seq<usize>) -> bool {
    &&& forall|k: int| 0 <= k < ord.len() ==> ((#[trigger] ord[k]) as int) < g.len()
    &&& forall|k: int| 0 <= k < ord.len() ==> #[trigger] parents_before(g, ord, k)
}

/// Appending a node whose parents are already scheduled keeps a
/// schedule valid.
pub proof fn lemma_order_push(g: Seq<Node>, ord: Seq<usize>, x: usize)
    requires
        order_ok(g, ord),
        (x as int) < g.len(),
        match g[x as int] {
            Node::Input(_) => true,
            Node::Task1(_, p) => in_ord(ord, p),
            Node::Task2(_, p, q) => in_ord(ord, p) && in_ord(ord, q),
        },
    ensures
        order_ok(g, ord.push(x)),
{
    let ord2 = ord.push(x);
    assert forall|k: int| 0 <= k < ord2.len() implies ((#[trigger] ord2[k]) as int) < g.len() by {
        if k < ord.len() {
            assert(ord2[k] == ord[k]);
        } else {
            assert(ord2[k] == x);
        }
    }
    assert forall|k: int| 0 <= k < ord2.len() implies #[trigger] parents_before(g, ord2, k) by {
        if k < ord.len() {
            assert(parents_before(g, ord, k));
            assert(ord2[k] == ord[k]);
            match g[ord[k] as int] {
                Node::Input(_) => {},
                Node::Task1(_, p) => {
                    let l = choose|l: int| 0 <= l < k && ord[l] == p;
                    assert(0 <= l < k && ord2[l] == p);
                },
                Node::Task2(_, p, q) => {
                    let l = choose|l: int| 0 <= l < k && ord[l] == p;
                    assert(0 <= l < k && ord2[l] == p);
                    let m = choose|m: int| 0 <= m < k && ord[m] == q;
                    assert(0 <= m < k && ord2[m] == q);
                },
            }
            assert(parents_before(g, ord2, k));
        } else {
            assert(ord2[k] == x);
            match g[x as int] {
                Node::Input(_) => {},
                Node::Task1(_, p) => {
                    assert(in_ord(ord, p));
                    let l = choose|l: int| 0 <= l < ord.len() && ord[l] == p;
                    assert(0 <= l < k && ord2[l] == p);
                },
                Node::Task2(_, p, q) => {
                    assert(in_ord(ord, p) && in_ord(ord, q));
                    let l = choose|l: int| 0 <= l < ord.len() && ord[l] == p;
                    assert(0 <= l < k && ord2[l] == p);
                    let m = choose|m: int| 0 <= m < ord.len() && ord[m] == q;
                    assert(0 <= m < k && ord2[m] == q);
                },
            }
            assert(parents_before(g, ord2, k));
        }
    }
}

/// The slot of the node scheduled at position `l` is finished.
pub open spec fn marked(done: Seq<bool>, ord: Seq<usize>, l: int) -> bool {
    done[ord[l] as int]
}

/// Every finished slot holds exactly the node's denotation.
pub open spec fn slots_ok(g: Seq<Node>, done: Seq<bool>, res: Seq<Option<Value>>) -> bool {
    &&& done.len() == g.len()
    &&& res.len() == g.len()
    &&& forall|j: int|
        0 <= j < g.len() && done[j] ==> opt_view(#[trigger] res[j]) == eval(g, j)
}

/// The shared evaluation core: run the nodes of a valid schedule in
/// order, memoizing each result so a node reachable over several paths
/// is evaluated exactly once.
fn evaluate_order(g: &Graph, ord: &Vec<usize>) -> (out: (Vec<bool>, Vec<Option<Value>>))
    requires
        g.wf(),
        order_ok(g@, ord@),
    ensures
        slots_ok(g@, out.0@, out.1@),
        forall|k: int| 0 <= k < ord@.len() ==> #[trigger] marked(out.0@, ord@, k),
{
    let n = g.node_count();
    let mut done: Vec<bool> = Vec::new();
    let mut res: Vec<Option<Value>> = Vec::new();
    let mut i: usize = 0;
    while i < n
        invariant
            n == g@.len(),
            i <= n,
            done@.len() == i,
            res@.len() == i,
            forall|j: int| 0 <= j < i ==> !done@[j],
        decreases n - i,
    {
        done.push(false);
        res.push(None);
        i += 1;
    }
    let mut k: usize = 0;
    while k < ord.len()
        invariant
            g.wf(),
            order_ok(g@, ord@),
            slots_ok(g@, done@, res@),
            k <= ord@.len(),
            forall|l: int| 0 <= l < k ==> #[trigger] marked(done@, ord@, l),
        decreases ord.len() - k,
    {
        let i = ord[k];
        proof {
            assert(parents_before(g@, ord@, k as int));
            assert((ord@[k as int] as int) < g@.len());
        }
        let ghost done0 = done@;
        let ghost res0 = res@;
        match g.node(i) {
            Node::Input(v) => {
                let value = v.clone();
                res[i] = Some(value);
                done[i] = true;
            },
            Node::Task1(op, p) => {
                let op = *op;
                let p = *p;
                proof {
                    let l = choose|l: int| 0 <= l < k && ord@[l] == p;
                    assert(marked(done@, ord@, l));
                    assert(done@[p as int]);
                    assert(node_wf(g@[i as int], i as int));
                }
                let r = match &res[p] {
                    Some(pv) => eval_op1(op, pv),
                    None => None,
                };
                proof {
                    assert(opt_view(r) == lift1(op, opt_view(res@[p as int])));
                }
                res[i] = r;
                done[i] = true;
            },
            Node::Task2(op, p, q) => {
                let op = *op;
                let p = *p;
                let q = *q;
                proof {
                    let l = choose|l: int| 0 <= l < k && ord@[l] == p;
                    assert(marked(done@, ord@, l));
                    assert(done@[p as int]);
                    let m = choose|m: int| 0 <= m < k && ord@[m] == q;
                    assert(marked(done@, ord@, m));
                    assert(done@[q as int]);
                    assert(node_wf(g@[i as int], i as int));
                }
                let r = match (&res[p], &res[q]) {
                    (Some(pv), Some(qv)) => eval_op2(op, pv, qv),
                    _ => None,
                };
                proof {
                    assert(opt_view(r) == lift2(
                        op,
                        opt_view(res@[p as int]),
                        opt_view(res@[q as int]),
                    ));
                }
                res[i] = r;
                done[i] = true;
            },
        }
        proof {
            assert(done@ == done0.update(i as int, true));
            assert(done@[i as int]);
            assert forall|j: int|
                0 <= j < g@.len() && done@[j] implies opt_view(#[trigger] res@[j]) == eval(
                g@,
                j,
            ) by {
                if j != i as int {
                    assert(done0[j] == done@[j] && res0[j] == res@[j]);
                }
            }
            assert forall|l: int| 0 <= l < k + 1 implies #[trigger] marked(done@, ord@, l) by {
                if l < k as int {
                    assert(marked(done0, ord@, l));
                    if ord@[l] as int == i as int {
                        assert(done@[ord@[l] as int]);
                    } else {
                        assert(done@[ord@[l] as int] == done0[ord@[l] as int]);
                    }
                } else {
                    assert(ord@[l] == i);
                }
            }
        }
        k += 1;
    }
    (done, res)
}

/// Read the root's memoized result out of a finished run.
fn take_result(g: &Graph, done: &Vec<bool>, res: &Vec<Option<Value>>, root: usize) -> (r: Option<
    Value,
>)
    requires
        slots_ok(g@, done@, res@),
        root < g@.len(),
        done@[root as int],
    ensures
        opt_view(r) == eval(g@, root as int),
{
    match &res[root] {
        Some(v) => Some(v.clone()),
        None => None,
    }
}

/// Strictly-leveled strategy: nodes are grouped into levels by longest
/// path from the leaves (inputs are level 0), and level k runs only
/// after level k-1 is fully complete.  Nodes within one level never
/// depend on each other.
pub struct LeveledScheduler;

/// The level of each node exceeds the level of each of its parents.
pub open spec fn levels_ok(g: Seq<Node>, level: Seq<usize>, j: int) -> bool {
    match g[j] {
        Node::Input(_) => level[j] == 0,
        Node::Task1(_, p) => level[p as int] < level[j],
        Node::Task2(_, p, q) => level[p as int] < level[j] && level[q as int] < level[j],
    }
}

impl Scheduler for LeveledScheduler {
    fn compute(&mut self, g: &Graph, root: usize) -> (r: Option<Value>) {
        let n = g.node_count();
        // longest-path levels, computable in one pass because parents
        // always precede their children in the arena
        let mut level: Vec<usize> = Vec::new();
        let mut i: usize = 0;
        while i < n
            invariant
                g.wf(),
                n == g@.len(),
                i <= n,
                level@.len() == i,
                forall|j: int| 0 <= j < i ==> #[trigger] level@[j] <= j,
                forall|j: int| 0 <= j < i ==> levels_ok(g@, level@, j),
            decreases n - i,
        {
            proof {
                assert(node_wf(g@[i as int], i as int));
            }
            let ghost lev0 = level@;
            match g.node(i) {
                Node::Input(_) => {
                    level.push(0);
                },
                Node::Task1(_, p) => {
                    let lp = level[*p];
                    level.push(lp + 1);
                },
                Node::Task2(_, p, q) => {
                    let lp = level[*p];
                    let lq = level[*q];
                    let lm = if lp < lq {
                        lq
                    } else {
                        lp
                    };
                    level.push(lm + 1);
                },
            }
            proof {
                assert forall|j: int| 0 <= j < i + 1 implies levels_ok(g@, level@, j) by {
                    if j < i as int {
                        assert(levels_ok(g@, lev0, j));
                        assert(node_wf(g@[j], j));
                    }
                }
            }
            i += 1;
        }
        // schedule: all of level 0, then all of level 1, and so on
        let mut ord: Vec<usize> = Vec::new();
        let mut lvl: usize = 0;
        while lvl < n
            invariant
                g.wf(),
                n == g@.len(),
                lvl <= n,
                level@.len() == n,
                forall|j: int| 0 <= j < n ==> #[trigger] level@[j] <= j,
                forall|j: int| 0 <= j < n ==> levels_ok(g@, level@, j),
                order_ok(g@, ord@),
                forall|j: usize|
                    j < n && (level@[j as int] as int) < lvl ==> #[trigger] in_ord(ord@, j),
            decreases n - lvl,
        {
            let mut i: usize = 0;
            while i < n
                invariant
                    g.wf(),
                    n == g@.len(),
                    lvl < n,
                    i <= n,
                    level@.len() == n,
                    forall|j: int| 0 <= j < n ==> #[trigger] level@[j] <= j,
                    forall|j: int| 0 <= j < n ==> levels_ok(g@, level@, j),
                    order_ok(g@, ord@),
                    forall|j: usize|
                        j < n && (level@[j as int] as int) < lvl ==> #[trigger] in_ord(ord@, j),
                    forall|j: usize|
                        j < i && level@[j as int] == lvl ==> #[trigger] in_ord(ord@, j),
                decreases n - i,
            {
                if level[i] == lvl {
                    proof {
                        assert(node_wf(g@[i as int], i as int));
                        assert(levels_ok(g@, level@, i as int));
                        lemma_order_push(g@, ord@, i);
                    }
                    let ghost ord0 = ord@;
                    ord.push(i);
                    proof {
                        assert forall|j: usize|
                            j < n && (level@[j as int] as int) < lvl implies #[trigger] in_ord(
                            ord@,
                            j,
                        ) by {
                            assert(in_ord(ord0, j));
                            let l = choose|l: int| 0 <= l < ord0.len() && ord0[l] == j;
                            assert(0 <= l < ord@.len() && ord@[l] == j);
                        }
                        assert forall|j: usize|
                            j < i + 1 && level@[j as int] == lvl implies #[trigger] in_ord(
                            ord@,
                            j,
                        ) by {
                            if j < i {
                                assert(in_ord(ord0, j));
                                let l = choose|l: int| 0 <= l < ord0.len() && ord0[l] == j;
                                assert(0 <= l < ord@.len() && ord@[l] == j);
                            } else {
                                assert(ord@[ord0.len() as int] == j);
                            }
                        }
                    }
                } else {
                    i += 1;
                    continue ;
                }
                i += 1;
            }
            lvl += 1;
        }
        proof {
            assert(in_ord(ord@, root)) by {
                assert(level@[root as int] <= root as int);
                assert((level@[root as int] as int) < n);
            }
        }
        let (done, res) = evaluate_order(g, &ord);
        proof {
            let l = choose|l: int| 0 <= l < ord@.len() && ord@[l] == root;
            assert(marked(done@, ord@, l));
            assert(done@[root as int]);
        }
        take_result(g, &done, &res, root)
    }
}

/// Greedy bounded-pool strategy: a ready queue is consumed as soon as
/// work is available.  Because node identities are assigned in
/// construction order, a node's parents always have smaller ids, so
/// one ascending pass dequeues every node exactly when its parents
/// have finished.  The pool size caps how many ready nodes would run
/// concurrently; it cannot change the computed value, which the
/// contract pins to the node's denotation.
pub struct GreedyScheduler {
    workers: usize,
}

impl GreedyScheduler {
    /// A pool with `workers` concurrent workers (at least one).
    pub fn new(workers: usize) -> (s: GreedyScheduler)
        ensures
            s.pool_size() == if workers >= 1 {
                workers
            } else {
                1
            },
    {
        GreedyScheduler { workers: if workers >= 1 { workers } else { 1 } }
    }

    pub closed spec fn pool_size(&self) -> usize {
        self.workers
    }
}

impl Scheduler for GreedyScheduler {
    fn compute(&mut self, g: &Graph, root: usize) -> (r: Option<Value>) {
        let n = g.node_count();
        let mut ord: Vec<usize> = Vec::new();
        let mut i: usize = 0;
        while i < n
            invariant
                g.wf(),
                n == g@.len(),
                i <= n,
                ord@.len() == i,
                forall|k: int| 0 <= k < i ==> ord@[k] == k,
                order_ok(g@, ord@),
            decreases n - i,
        {
            proof {
                assert(node_wf(g@[i as int], i as int));
                assert forall|k: int|
                    0 <= k < ord@.push(i).len() implies (ord@.push(i)[k] as int) < g@.len()
                    && #[trigger] parents_before(g@, ord@.push(i), k) by {
                    let ord2 = ord@.push(i);
                    assert(ord2[k] == k);
                    match g@[k] {
                        Node::Input(_) => {},
                        Node::Task1(_, p) => {
                            assert(node_wf(g@[k], k));
                            assert(ord2[p as int] == p);
                        },
                        Node::Task2(_, p, q) => {
                            assert(node_wf(g@[k], k));
                            assert(ord2[p as int] == p);
                            assert(ord2[q as int] == q);
                        },
                    }
                }
            }
            ord.push(i);
            i += 1;
        }
        let (done, res) = evaluate_order(g, &ord);
        proof {
            assert(ord@[root as int] == root);
            assert(marked(done@, ord@, root as int));
            assert(done@[root as int]);
        }
        take_result(g, &done, &res, root)
    }
}

} // verus!
