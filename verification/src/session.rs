use vstd::prelude::*;

use crate::graph::Graph;
use crate::graph::eval_node_list;
use crate::node::Node;
use crate::operation::Idx;
use crate::operation::ScalarOp;
use crate::operation::forward_ok;
use crate::operation::NEG_ONE_BITS;
use crate::operation::ONE_BITS;
use crate::operation::Operation;
use crate::operation::Val;
use crate::operation::op_wf;
use crate::operation::ops_wf;

verus! {

/// The feed entries of an optional feed, empty when none was given.
pub open spec fn feed_seq(feed: Option<Vec<(Idx, Val)>>) -> Seq<(Idx, Val)> {
    match feed {
        Some(f) => f@,
        None => Seq::empty(),
    }
}

/// The cache after the feed entries are written into it, left to right; a
/// later entry for the same identifier overrides an earlier one.
pub open spec fn seed_cache(c: Seq<Option<Val>>, feed: Seq<(Idx, Val)>) -> Seq<Option<Val>>
    decreases feed.len(),
{
    if feed.len() == 0 {
        c
    } else {
        seed_cache(c, feed.drop_last()).update(feed.last().0 as int, Some(feed.last().1))
    }
}

/// Crate-internal bridge between the arena's abstract view and its fields.
pub(crate) proof fn lemma_session_ops(s: &Session)
    ensures
        s.ops() == s.nodes@.map(|i: int, n: Node| n.op()),
        s.cache() == s.values@,
{
}

/// The node arena: the append-only owner of all nodes, together with the
/// persistent numeric value cache. Nodes are never removed or mutated; the
/// cache survives across evaluations until `reset` clears it wholesale.
pub struct Session {
    pub(crate) nodes: Vec<Node>,
    pub(crate) values: Vec<Option<Val>>,
}

impl Session {
    /// The operations stored in the arena, in creation order.
    pub closed spec fn ops(self) -> Seq<Operation> {
        self.nodes@.map(|i: int, n: Node| n.op())
    }

    /// The value cache: one slot per node, `None` while unevaluated.
    pub closed spec fn cache(self) -> Seq<Option<Val>> {
        self.values@
    }

    /// Each stored node records the identifier it was created under.
    pub closed spec fn ids_ok(self) -> bool {
        forall|i: int| 0 <= i < self.nodes@.len() ==> (#[trigger] self.nodes@[i]).id() == i
    }

    /// Arena invariant: nodes only reference earlier nodes, the cache has one
    /// slot per node, and stored identifiers match positions.
    pub open spec fn wf(self) -> bool {
        &&& ops_wf(self.ops())
        &&& self.cache().len() == self.ops().len()
        &&& self.ids_ok()
    }

    pub fn new() -> (s: Session)
        ensures
            s.wf(),
            s.ops() == Seq::<Operation>::empty(),
            s.cache() == Seq::<Option<Val>>::empty(),
    {
        let s = Session { nodes: Vec::new(), values: Vec::new() };
        proof {
            assert(s.ops() =~= Seq::<Operation>::empty());
            assert(s.cache() =~= Seq::<Option<Val>>::empty());
        }
        s
    }

    /// How many nodes the arena holds; also the next identifier to be issued.
    pub fn num_nodes(&self) -> (n: usize)
        ensures
            n == self.ops().len(),
    {
        self.nodes.len()
    }

    /// Appends a node and returns its fresh identifier. The operation may
    /// only reference identifiers already issued by this arena.
    pub fn add_node(&mut self, operation: Operation) -> (idx: Idx)
        requires
            old(self).wf(),
            op_wf(operation, old(self).ops().len() as int),
        ensures
            final(self).wf(),
            idx == old(self).ops().len(),
            final(self).ops() == old(self).ops().push(operation),
            final(self).cache() == old(self).cache().push(None::<Val>),
    {
        let idx = self.nodes.len();
        self.nodes.push(Node::new(idx, operation));
        self.values.push(None);
        proof {
            assert(self.ops() =~= old(self).ops().push(operation));
            assert(self.cache() =~= old(self).cache().push(None::<Val>));
            assert forall|i: int| 0 <= i < self.ops().len() implies op_wf(
                #[trigger] self.ops()[i],
                i,
            ) by {
                if i < old(self).ops().len() {
                    assert(op_wf(old(self).ops()[i], i));
                }
            }
        }
        idx
    }

    /// Looks the node up by identifier; an identifier at or beyond the arena
    /// length is a caller error.
    pub fn get_node(&self, idx: &Idx) -> (n: Node)
        requires
            self.wf(),
            *idx < self.ops().len(),
        ensures
            n.op() == self.ops()[*idx as int],
            n.id() == *idx,
    {
        self.nodes[*idx]
    }

    /// The cached numeric value of a node; asking for a node that has not
    /// been evaluated since the last reset is a caller error.
    pub fn get_value(&self, idx: &Idx) -> (v: Val)
        requires
            *idx < self.cache().len(),
            self.cache()[*idx as int] is Some,
        ensures
            Some(v) == self.cache()[*idx as int],
    {
        self.values[*idx].unwrap()
    }

    /// Clears every cached value while leaving the nodes intact. Required
    /// whenever placeholder feed values change between evaluations, since
    /// cached values are looked up purely by presence, not by staleness.
    pub fn reset(&mut self)
        requires
            old(self).wf(),
        ensures
            final(self).wf(),
            final(self).ops() == old(self).ops(),
            final(self).cache().len() == old(self).cache().len(),
            forall|i: int| 0 <= i < final(self).cache().len() ==> final(self).cache()[i] is None,
    {
        let n = self.values.len();
        let mut i: usize = 0;
        while i < n
            invariant
                n == self.values@.len(),
                i <= n,
                self.nodes == old(self).nodes,
                forall|j: int| 0 <= j < i ==> self.values@[j] is None,
            decreases n - i,
        {
            self.values.set(i, None);
            i += 1;
        }
    }

    /// Evaluates the given graph against the shared value cache, seeding the
    /// cache first with the feed entries (typically placeholder values), and
    /// returns the outputs in declared order. Already-cached values are never
    /// recomputed.
    pub fn eval_graph<F: Fn(ScalarOp) -> Val>(
        &mut self,
        graph: &Graph,
        feed: Option<Vec<(Idx, Val)>>,
        arith: &F,
    ) -> (r: Vec<Val>)
        requires
            old(self).wf(),
            graph.wf(old(self).ops()),
            forall|i: int| 0 <= i < feed_seq(feed).len() ==> (#[trigger] feed_seq(feed)[i]).0 < old(self).ops().len(),
            forall|p: ScalarOp| call_requires(*arith, (p,)),
        ensures
            final(self).wf(),
            final(self).ops() == old(self).ops(),
            final(self).cache().len() == old(self).cache().len(),
            forall|i: int|
                0 <= i < old(self).cache().len() && seed_cache(old(self).cache(), feed_seq(feed))[i]
                    is Some ==> final(self).cache()[i] == seed_cache(
                    old(self).cache(),
                    feed_seq(feed),
                )[i],
            forall|i: int|
                0 <= i < old(self).cache().len() && !graph.node_list().contains(i as Idx) ==> final(self).cache()[i] == seed_cache(old(self).cache(), feed_seq(feed))[i],
            forall|j: int| 0 <= j < graph.node_list().len() ==> final(self).cache()[#[trigger] graph
                .node_list()[j] as int] is Some,
            forall|j: int|
                0 <= j < graph.node_list().len() && seed_cache(old(self).cache(), feed_seq(feed))[
                    graph.node_list()[j] as int
                ] is None ==> forward_ok(
                    *arith,
                    old(self).ops()[#[trigger] graph.node_list()[j] as int],
                    final(self).cache(),
                    final(self).cache()[graph.node_list()[j] as int]->0,
                ),
            r@.len() == graph.outs().len(),
            forall|i: int| 0 <= i < graph.outs().len() ==> Some(r@[i]) == final(self).cache()[
                #[trigger] graph.outs()[i] as int
            ],
    {
        let ghost c0 = self.values@;
        proof {
            crate::graph::lemma_graph_view(graph);
        }
        if let Some(f) = feed {
            let mut i: usize = 0;
            while i < f.len()
                invariant
                    self.nodes == old(self).nodes,
                    self.values@.len() == c0.len(),
                    i <= f@.len(),
                    forall|j: int| 0 <= j < f@.len() ==> (#[trigger] f@[j]).0 < c0.len(),
                    self.values@ == seed_cache(c0, f@.subrange(0, i as int)),
                decreases f@.len() - i,
            {
                let (k, v) = f[i];
                self.values.set(k, Some(v));
                proof {
                    let sub1 = f@.subrange(0, i as int + 1);
                    assert(sub1.drop_last() =~= f@.subrange(0, i as int));
                    assert(sub1.last() == f@[i as int]);
                }
                i += 1;
            }
            proof {
                assert(f@.subrange(0, f@.len() as int) =~= f@);
                assert(self.values@ == seed_cache(c0, feed_seq(feed)));
            }
        }
        let ghost seeded = self.values@;
        proof {
            assert(seeded == seed_cache(c0, feed_seq(feed)));
        }
        eval_node_list(&graph.nodes, &self.nodes, &mut self.values, arith);
        let ghost mid = self.values@;
        let mut r: Vec<Val> = Vec::new();
        let mut i: usize = 0;
        while i < graph.out_nodes.len()
            invariant
                old(self).wf(),
                self.nodes == old(self).nodes,
                self.values@ == mid,
                graph.wf(old(self).ops()),
                graph.node_list() == graph.nodes@,
                graph.outs() == graph.out_nodes@,
                self.values@.len() == old(self).cache().len(),
                i <= graph.outs().len(),
                r@.len() == i,
                forall|j: int| 0 <= j < graph.node_list().len() ==> self.values@[#[trigger] graph
                    .node_list()[j] as int] is Some,
                forall|ii: int| 0 <= ii < i ==> Some(r@[ii]) == self.values@[#[trigger] graph
                    .outs()[ii] as int],
            decreases graph.outs().len() - i,
        {
            let o = graph.out_nodes[i];
            proof {
                assert(graph.node_list().contains(o));
                let jj = choose|jj: int|
                    0 <= jj < graph.node_list().len() && graph.node_list()[jj] == o;
                assert(o < old(self).ops().len());
                assert(self.values@[graph.node_list()[jj] as int] is Some);
            }
            let v = self.values[o].unwrap();
            r.push(v);
            i += 1;
        }
        r
    }

    /// A fresh constant node holding the given bit pattern.
    pub fn constant(&mut self, val: Val) -> (r: Idx)
        requires
            old(self).wf(),
        ensures
            final(self).wf(),
            r == old(self).ops().len(),
            final(self).ops() == old(self).ops().push(Operation::Constant(val)),
            final(self).cache() == old(self).cache().push(None::<Val>),
    {
        self.add_node(Operation::Constant(val))
    }

    /// A fresh constant node holding the scalar one.
    pub fn one(&mut self) -> (r: Idx)
        requires
            old(self).wf(),
        ensures
            final(self).wf(),
            r == old(self).ops().len(),
            final(self).ops() == old(self).ops().push(Operation::Constant(ONE_BITS)),
            final(self).cache() == old(self).cache().push(None::<Val>),
    {
        self.constant(ONE_BITS)
    }

    /// A fresh placeholder node, whose value must be supplied by the
    /// evaluation feed.
    pub fn placeholder(&mut self) -> (r: Idx)
        requires
            old(self).wf(),
        ensures
            final(self).wf(),
            r == old(self).ops().len(),
            final(self).ops() == old(self).ops().push(Operation::Placeholder),
            final(self).cache() == old(self).cache().push(None::<Val>),
    {
        self.add_node(Operation::Placeholder)
    }

    pub fn sum(&mut self, a: Idx, b: Idx) -> (r: Idx)
        requires
            old(self).wf(),
            a < old(self).ops().len(),
            b < old(self).ops().len(),
        ensures
            final(self).wf(),
            r == old(self).ops().len(),
            final(self).ops() == old(self).ops().push(Operation::Sum(a, b)),
            final(self).cache() == old(self).cache().push(None::<Val>),
    {
        self.add_node(Operation::Sum(a, b))
    }

    pub fn multiply(&mut self, a: Idx, b: Idx) -> (r: Idx)
        requires
            old(self).wf(),
            a < old(self).ops().len(),
            b < old(self).ops().len(),
        ensures
            final(self).wf(),
            r == old(self).ops().len(),
            final(self).ops() == old(self).ops().push(Operation::Multiply(a, b)),
            final(self).cache() == old(self).cache().push(None::<Val>),
    {
        self.add_node(Operation::Multiply(a, b))
    }

    pub fn negative(&mut self, a: Idx) -> (r: Idx)
        requires
            old(self).wf(),
            a < old(self).ops().len(),
        ensures
            final(self).wf(),
            r == old(self).ops().len(),
            final(self).ops() == old(self).ops().push(Operation::Negative(a)),
            final(self).cache() == old(self).cache().push(None::<Val>),
    {
        self.add_node(Operation::Negative(a))
    }

    pub fn exp(&mut self, a: Idx) -> (r: Idx)
        requires
            old(self).wf(),
            a < old(self).ops().len(),
        ensures
            final(self).wf(),
            r == old(self).ops().len(),
            final(self).ops() == old(self).ops().push(Operation::Exponential(a)),
            final(self).cache() == old(self).cache().push(None::<Val>),
    {
        self.add_node(Operation::Exponential(a))
    }

    pub fn ln(&mut self, a: Idx) -> (r: Idx)
        requires
            old(self).wf(),
            a < old(self).ops().len(),
        ensures
            final(self).wf(),
            r == old(self).ops().len(),
            final(self).ops() == old(self).ops().push(Operation::Ln(a)),
            final(self).cache() == old(self).cache().push(None::<Val>),
    {
        self.add_node(Operation::Ln(a))
    }

    /// Squaring, composed as `a * a` so that the reverse pass differentiates
    /// it with no special rule.
    pub fn square(&mut self, a: Idx) -> (r: Idx)
        requires
            old(self).wf(),
            a < old(self).ops().len(),
        ensures
            final(self).wf(),
            r == old(self).ops().len(),
            final(self).ops() == old(self).ops().push(Operation::Multiply(a, a)),
            final(self).cache() == old(self).cache().push(None::<Val>),
    {
        self.multiply(a, a)
    }

    /// Subtraction, composed as `a + (-b)`.
    pub fn subtract(&mut self, a: Idx, b: Idx) -> (r: Idx)
        requires
            old(self).wf(),
            a < old(self).ops().len(),
            b < old(self).ops().len(),
        ensures
            final(self).wf(),
            r == old(self).ops().len() + 1,
            final(self).ops() == old(self).ops().push(Operation::Negative(b)).push(
                Operation::Sum(a, (r - 1) as Idx),
            ),
            final(self).cache() == old(self).cache().push(None::<Val>).push(None::<Val>),
    {
        let nb = self.negative(b);
        self.sum(a, nb)
    }

    /// Exponentiation by an arbitrary power, composed as `exp(ln(a) * b)`.
    pub fn pow(&mut self, a: Idx, b: Idx) -> (r: Idx)
        requires
            old(self).wf(),
            a < old(self).ops().len(),
            b < old(self).ops().len(),
        ensures
            final(self).wf(),
            r == old(self).ops().len() + 2,
            final(self).ops() == old(self).ops().push(Operation::Ln(a)).push(
                Operation::Multiply((r - 2) as Idx, b),
            ).push(Operation::Exponential((r - 1) as Idx)),
            final(self).cache() == old(self).cache().push(None::<Val>).push(None::<Val>).push(
                None::<Val>,
            ),
    {
        let c = self.ln(a);
        let d = self.multiply(c, b);
        self.exp(d)
    }

    /// Division, composed as `a * b^(-1)`.
    pub fn divide(&mut self, a: Idx, b: Idx) -> (r: Idx)
        requires
            old(self).wf(),
            a < old(self).ops().len(),
            b < old(self).ops().len(),
        ensures
            final(self).wf(),
            r == old(self).ops().len() + 4,
            final(self).ops() == old(self).ops().push(Operation::Constant(NEG_ONE_BITS)).push(
                Operation::Ln(b),
            ).push(Operation::Multiply((r - 3) as Idx, (r - 4) as Idx)).push(
                Operation::Exponential((r - 2) as Idx),
            ).push(Operation::Multiply(a, (r - 1) as Idx)),
            final(self).cache() == old(self).cache().push(None::<Val>).push(None::<Val>).push(
                None::<Val>,
            ).push(None::<Val>).push(None::<Val>),
    {
        let neg_one = self.constant(NEG_ONE_BITS);
        let inv = self.pow(b, neg_one);
        self.multiply(a, inv)
    }
}

} // verus!
