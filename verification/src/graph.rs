//! The computation graph: arena-allocated nodes addressed by stable
//! integer identity.
//!
//! A task node may only reference nodes that already exist, so the
//! parent relation is acyclic by construction and every node has a
//! well-defined denotation `eval`, the value (or absence) that any
//! correct scheduler must produce for it.

use vstd::prelude::*;
use crate::value::{Value, Val, Op1, Op2, lift1, lift2};

verus! {

/// One node of the DAG: an input value, or a task over one or two
/// earlier nodes.
pub enum Node {
    Input(Value),
    Task1(Op1, usize),
    Task2(Op2, usize, usize),
}

/// A node stored at index `i` may only reference strictly earlier nodes.
pub open spec fn node_wf(n: Node, i: int) -> bool {
    match n {
        Node::Input(_) => true,
        Node::Task1(_, p) => (p as int) < i,
        Node::Task2(_, p, q) => (p as int) < i && (q as int) < i,
    }
}

pub open spec fn graph_wf(g: Seq<Node>) -> bool {
    forall|i: int| 0 <= i < g.len() ==> node_wf(#[trigger] g[i], i)
}

/// The denotation of node `i`: the value it must materialize to, or
/// absence if a tag mismatch occurs anywhere below it.
pub open spec fn eval(g: Seq<Node>, i: int) -> Option<Val>
    decreases i,
{
    if 0 <= i < g.len() {
        match g[i] {
            Node::Input(v) => Some(v@),
            Node::Task1(op, p) => if (p as int) < i {
                lift1(op, eval(g, p as int))
            } else {
                None
            },
            Node::Task2(op, p, q) => if (p as int) < i && (q as int) < i {
                lift2(op, eval(g, p as int), eval(g, q as int))
            } else {
                None
            },
        }
    } else {
        None
    }
}

/// `g2` extends `g1`: it begins with exactly the nodes of `g1`.
pub open spec fn extends(g1: Seq<Node>, g2: Seq<Node>) -> bool {
    g1.len() <= g2.len() && g2.take(g1.len() as int) == g1
}

/// Growing a graph never changes the denotation of existing nodes.
pub proof fn lemma_eval_extends(g1: Seq<Node>, g2: Seq<Node>, i: int)
    requires
        extends(g1, g2),
        i < g1.len(),
    ensures
        eval(g2, i) == eval(g1, i),
    decreases i,
{
    if 0 <= i {
        assert(g2[i] == g1[i]) by {
            assert(g2.take(g1.len() as int)[i] == g2[i]);
        }
        match g1[i] {
            Node::Input(_) => {},
            Node::Task1(_, p) => {
                if (p as int) < i {
                    lemma_eval_extends(g1, g2, p as int);
                }
            },
            Node::Task2(_, p, q) => {
                if (p as int) < i && (q as int) < i {
                    lemma_eval_extends(g1, g2, p as int);
                    lemma_eval_extends(g1, g2, q as int);
                }
            },
        }
    }
}

pub proof fn lemma_eval_extends_all(g1: Seq<Node>, g2: Seq<Node>)
    requires
        extends(g1, g2),
    ensures
        forall|i: int| 0 <= i < g1.len() ==> #[trigger] eval(g2, i) == eval(g1, i),
{
    assert forall|i: int| 0 <= i < g1.len() implies #[trigger] eval(g2, i) == eval(g1, i) by {
        lemma_eval_extends(g1, g2, i);
    }
}

pub proof fn lemma_extends_trans(g1: Seq<Node>, g2: Seq<Node>, g3: Seq<Node>)
    requires
        extends(g1, g2),
        extends(g2, g3),
    ensures
        extends(g1, g3),
{
    assert(g3.take(g1.len() as int) =~= g2.take(g1.len() as int));
}

/// The arena holding the graph's nodes.
pub struct Graph {
    nodes: Vec<Node>,
}

impl View for Graph {
    type V = Seq<Node>;

    closed spec fn view(&self) -> Seq<Node> {
        self.nodes@
    }
}

impl Graph {
    pub open spec fn wf(&self) -> bool {
        graph_wf(self@)
    }

    pub fn new() -> (g: Graph)
        ensures
            g@.len() == 0,
            g.wf(),
    {
        Graph { nodes: Vec::new() }
    }

    pub fn node_count(&self) -> (n: usize)
        ensures
            n == self@.len(),
    {
        self.nodes.len()
    }

    /// Record an already-available value as an input node.
    pub fn push_input(&mut self, v: Value) -> (id: usize)
        requires
            old(self).wf(),
        ensures
            final(self)@ == old(self)@.push(Node::Input(v)),
            final(self).wf(),
            id == old(self)@.len(),
            extends(old(self)@, final(self)@),
            eval(final(self)@, id as int) == Some::<Val>(v@),
            forall|i: int|
                0 <= i < old(self)@.len() ==> #[trigger] eval(final(self)@, i) == eval(
                    old(self)@,
                    i,
                ),
    {
        let ghost g0 = self@;
        let id = self.nodes.len();
        self.nodes.push(Node::Input(v));
        proof {
            assert(self@.take(g0.len() as int) =~= g0);
            assert forall|i: int| 0 <= i < self@.len() implies node_wf(#[trigger] self@[i], i) by {
                if i < g0.len() {
                    assert(node_wf(g0[i], i));
                }
            }
            lemma_eval_extends_all(g0, self@);
        }
        id
    }

    /// Record a one-parent task node over an existing node.
    pub fn push_task1(&mut self, op: Op1, p: usize) -> (id: usize)
        requires
            old(self).wf(),
            p < old(self)@.len(),
        ensures
            final(self)@ == old(self)@.push(Node::Task1(op, p)),
            final(self).wf(),
            id == old(self)@.len(),
            extends(old(self)@, final(self)@),
            eval(final(self)@, id as int) == lift1(op, eval(old(self)@, p as int)),
            forall|i: int|
                0 <= i < old(self)@.len() ==> #[trigger] eval(final(self)@, i) == eval(
                    old(self)@,
                    i,
                ),
    {
        let ghost g0 = self@;
        let id = self.nodes.len();
        self.nodes.push(Node::Task1(op, p));
        proof {
            assert(self@.take(g0.len() as int) =~= g0);
            assert forall|i: int| 0 <= i < self@.len() implies node_wf(#[trigger] self@[i], i) by {
                if i < g0.len() {
                    assert(node_wf(g0[i], i));
                }
            }
            lemma_eval_extends_all(g0, self@);
            assert(eval(self@, id as int) == lift1(op, eval(self@, p as int)));
        }
        id
    }

    /// Record a two-parent task node over existing nodes.
    pub fn push_task2(&mut self, op: Op2, p: usize, q: usize) -> (id: usize)
        requires
            old(self).wf(),
            p < old(self)@.len(),
            q < old(self)@.len(),
        ensures
            final(self)@ == old(self)@.push(Node::Task2(op, p, q)),
            final(self).wf(),
            id == old(self)@.len(),
            extends(old(self)@, final(self)@),
            eval(final(self)@, id as int) == lift2(
                op,
                eval(old(self)@, p as int),
                eval(old(self)@, q as int),
            ),
            forall|i: int|
                0 <= i < old(self)@.len() ==> #[trigger] eval(final(self)@, i) == eval(
                    old(self)@,
                    i,
                ),
    {
        let ghost g0 = self@;
        let id = self.nodes.len();
        self.nodes.push(Node::Task2(op, p, q));
        proof {
            assert(self@.take(g0.len() as int) =~= g0);
            assert forall|i: int| 0 <= i < self@.len() implies node_wf(#[trigger] self@[i], i) by {
                if i < g0.len() {
                    assert(node_wf(g0[i], i));
                }
            }
            lemma_eval_extends_all(g0, self@);
            assert(eval(self@, id as int) == lift2(
                op,
                eval(self@, p as int),
                eval(self@, q as int),
            ));
        }
        id
    }

    /// Read a node.
    pub fn node(&self, i: usize) -> (n: &Node)
        requires
            i < self@.len(),
        ensures
            *n == self@[i as int],
    {
        &self.nodes[i]
    }
}

} // verus!
