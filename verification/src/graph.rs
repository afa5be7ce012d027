use vstd::prelude::*;

use crate::node::Node;
use crate::node::deriv_contribs;
use crate::node::generate_deriv_nodes;
use crate::operation::Idx;
use crate::operation::one_op;
use crate::operation::Operation;
use crate::operation::ScalarOp;
use crate::operation::Val;
use crate::operation::forward_ok;
use crate::operation::inputs_of;
use crate::operation::op_wf;
use crate::operation::ops_wf;
use crate::session::Session;

verus! {

/// An immutable view over the subset of arena nodes that are ancestors of a
/// chosen output set, held in ascending identifier order — which, because
/// inputs always precede their dependents, is a topological order.
pub struct Graph {
    pub(crate) nodes: Vec<Idx>,
    pub(crate) out_nodes: Vec<Idx>,
}

/// `to` is an ancestor of `from` (or `from` itself) along declared inputs.
pub open spec fn reaches(ops: Seq<Operation>, from: int, to: int) -> bool
    decreases from,
{
    from == to || (0 <= from < ops.len() && exists|k: int|
        0 <= k < inputs_of(ops[from]).len() && (#[trigger] inputs_of(ops[from])[k]) < from
            && reaches(ops, inputs_of(ops[from])[k] as int, to))
}

/// `to` is an ancestor of at least one of the listed output nodes.
pub open spec fn reaches_any(ops: Seq<Operation>, outs: Seq<Idx>, to: int) -> bool {
    exists|i: int| 0 <= i < outs.len() && reaches(ops, #[trigger] outs[i] as int, to)
}

/// A valid topologically-ordered node list over the arena `ops`: every listed
/// identifier is in range, the list ascends strictly, and every input of a
/// listed node appears at an earlier position of the same list.
pub open spec fn order_wf(ops: Seq<Operation>, order: Seq<Idx>) -> bool {
    &&& forall|j: int| 0 <= j < order.len() ==> (#[trigger] order[j]) < ops.len()
    &&& forall|i: int, j: int| 0 <= i < j < order.len() ==> order[i] < order[j]
    &&& forall|j: int, k: int|
        0 <= j < order.len() && 0 <= k < inputs_of(ops[order[j] as int]).len() ==> order.subrange(
            0,
            j,
        ).contains(#[trigger] inputs_of(ops[order[j] as int])[k])
}

impl Graph {
    /// The topologically-sorted closure: every ancestor of the output set,
    /// the outputs themselves included.
    pub closed spec fn node_list(self) -> Seq<Idx> {
        self.nodes@
    }

    /// The declared outputs, in caller order, duplicates allowed.
    pub closed spec fn outs(self) -> Seq<Idx> {
        self.out_nodes@
    }

    /// Graph invariant against the arena it was built over: a well-formed
    /// order that holds exactly the ancestors of the declared outputs.
    pub open spec fn wf(self, ops: Seq<Operation>) -> bool {
        &&& order_wf(ops, self.node_list())
        &&& forall|i: int| 0 <= i < self.outs().len() ==> self.node_list().contains(
            #[trigger] self.outs()[i],
        )
        &&& forall|t: Idx| (#[trigger] self.node_list().contains(t)) <==> reaches_any(
            ops,
            self.outs(),
            t as int,
        )
    }

    pub fn get_n_nodes(&self) -> (n: usize)
        ensures
            n == self.node_list().len(),
    {
        self.nodes.len()
    }

    /// Memoized forward evaluation against an external value cache: nodes
    /// already present in the cache are skipped (which is also how fed
    /// placeholder values take precedence), the rest are computed in
    /// topological order, and the declared outputs are returned in order.
    pub fn evaluate<F: Fn(ScalarOp) -> Val>(
        &self,
        current_values: &mut Vec<Option<Val>>,
        session: &Session,
        arith: &F,
    ) -> (r: Vec<Val>)
        requires
            session.wf(),
            self.wf(session.ops()),
            old(current_values)@.len() == session.ops().len(),
            forall|p: ScalarOp| call_requires(*arith, (p,)),
        ensures
            final(current_values)@.len() == old(current_values)@.len(),
            forall|i: int| 0 <= i < old(current_values)@.len() && old(current_values)@[i] is Some
                ==> final(current_values)@[i] == old(current_values)@[i],
            forall|i: int|
                0 <= i < old(current_values)@.len() && !self.node_list().contains(i as Idx)
                    ==> final(current_values)@[i] == old(current_values)@[i],
            forall|j: int| 0 <= j < self.node_list().len() ==> (final(current_values))@[#[trigger] self.node_list()[j] as int] is Some,
            forall|j: int|
                0 <= j < self.node_list().len() && old(current_values)@[self.node_list()[j] as int]
                    is None ==> forward_ok(
                    *arith,
                    session.ops()[#[trigger] self.node_list()[j] as int],
                    final(current_values)@,
                    final(current_values)@[self.node_list()[j] as int]->0,
                ),
            r@.len() == self.outs().len(),
            forall|i: int| 0 <= i < self.outs().len() ==> Some(r@[i]) == final(current_values)@[#[trigger] self.outs()[i] as int],
    {
        proof {
            crate::session::lemma_session_ops(session);
        }
        eval_node_list(&self.nodes, &session.nodes, current_values, arith);
        let ghost mid = current_values@;
        let mut r: Vec<Val> = Vec::new();
        let mut i: usize = 0;
        while i < self.out_nodes.len()
            invariant
                self.wf(session.ops()),
                i <= self.outs().len(),
                r@.len() == i,
                current_values@ == mid,
                current_values@.len() == session.ops().len(),
                forall|j: int| 0 <= j < self.node_list().len() ==> current_values@[#[trigger] self
                    .node_list()[j] as int] is Some,
                forall|ii: int| 0 <= ii < i ==> Some(r@[ii]) == current_values@[#[trigger] self
                    .outs()[ii] as int],
            decreases self.outs().len() - i,
        {
            let o = self.out_nodes[i];
            proof {
                assert(self.node_list().contains(o));
                let jj = choose|jj: int|
                    0 <= jj < self.node_list().len() && self.node_list()[jj] == o;
                assert(current_values@[self.node_list()[jj] as int] is Some);
            }
            let v = current_values[o].unwrap();
            r.push(v);
            i += 1;
        }
        r
    }

    /// Reverse-mode differentiation: seeds every output with a constant-one
    /// derivative, then walks this graph's node list in strictly descending
    /// identifier order, accumulating each node's chain-rule contributions
    /// into its inputs' derivative slots. Returns the graph over all
    /// derivative nodes together with the derivative map.
    #[verifier::rlimit(100)]
    pub fn generate_deriv_graph(&self, session: &mut Session) -> (r: (Graph, DerivMap))
        requires
            old(session).wf(),
            self.wf(old(session).ops()),
        ensures
            final(session).wf(),
            forall|i: int| 0 <= i < old(session).ops().len() ==> final(session).ops()[i] == old(session).ops()[i],
            forall|i: int| 0 <= i < old(session).cache().len() ==> final(session).cache()[i] == old(session).cache()[i],
            forall|i: int|
                old(session).cache().len() <= i < final(session).cache().len() ==> final(session).cache()[i] is None,
            r.1@.len() == old(session).ops().len(),
            forall|j: int| 0 <= j < self.node_list().len() ==> r.1@[#[trigger] self.node_list()[
                j
            ] as int] is Some,
            ({
                let seeded = seed_outputs(
                    old(session).ops(),
                    Seq::new(old(session).ops().len(), |i: int| None::<Idx>),
                    self.outs(),
                );
                let passed = deriv_pass(seeded.0, seeded.1, self.node_list());
                &&& final(session).ops() == passed.0
                &&& r.1@ == passed.1
                &&& r.0.wf(final(session).ops())
                &&& r.0.outs() == some_entries(passed.1)
                &&& forall|t: Idx| r.0.node_list().contains(t) <==> reaches_any(
                    final(session).ops(),
                    some_entries(passed.1),
                    t as int,
                )
            }),
    {
        let ghost ops0 = old(session).ops();
        let ghost dmap0 = Seq::new(old(session).ops().len(), |i: int| None::<Idx>);
        let n0 = session.num_nodes();
        let mut dmap: Vec<Option<Idx>> = Vec::new();
        while dmap.len() < n0
            invariant
                dmap@.len() <= n0,
                forall|i: int| 0 <= i < dmap@.len() ==> (#[trigger] dmap@[i]) is None,
            decreases n0 - dmap@.len(),
        {
            dmap.push(None);
        }
        proof {
            assert(dmap@ =~= dmap0);
        }

        // Seed: every declared output gets a fresh constant-one derivative.
        let mut i: usize = 0;
        while i < self.out_nodes.len()
            invariant
                old(session).wf(),
                session.wf(),
                self.wf(ops0),
                ops0 == old(session).ops(),
                n0 == ops0.len(),
                i <= self.outs().len(),
                dmap@.len() == n0,
                session.ops() == seed_outputs(ops0, dmap0, self.outs().take(i as int)).0,
                dmap@ == seed_outputs(ops0, dmap0, self.outs().take(i as int)).1,
                forall|jj: int| 0 <= jj < i ==> dmap@[#[trigger] self.outs()[jj] as int] is Some,
                forall|t: int| 0 <= t < n0 ==> session.ops()[t] == ops0[t],
                session.ops().len() >= n0,
                forall|t: int| 0 <= t < dmap@.len() ==> ((#[trigger] dmap@[t]) matches Some(v)
                    ==> v < session.ops().len()),
                forall|t: int| 0 <= t < old(session).cache().len() ==> session.cache()[t] == old(session).cache()[t],
                forall|t: int|
                    old(session).cache().len() <= t < session.cache().len() ==> session.cache()[t]
                        is None,
            decreases self.outs().len() - i,
        {
            let out = self.out_nodes[i];
            proof {
                assert(self.node_list().contains(out));
                let jj = choose|jj: int|
                    0 <= jj < self.node_list().len() && self.node_list()[jj] == out;
                assert(out < n0);
            }
            let ghost cpre = session.cache();
            let one = session.one();
            dmap.set(out, Some(one));
            proof {
                let outs1 = self.outs().take(i as int + 1);
                assert(outs1.drop_last() =~= self.outs().take(i as int));
                assert(outs1.last() == self.outs()[i as int]);
                assert forall|t: int|
                    0 <= t < old(session).cache().len() implies session.cache()[t] == old(session).cache()[t] by {
                    assert(cpre[t] == old(session).cache()[t]);
                }
                assert forall|t: int|
                    old(session).cache().len() <= t < session.cache().len() implies session
                    .cache()[t] is None by {
                    if t < cpre.len() {
                        assert(cpre[t] is None);
                    }
                }
            }
            i += 1;
        }
        proof {
            assert(self.outs().take(self.outs().len() as int) =~= self.outs());
        }
        let ghost ops1 = seed_outputs(ops0, dmap0, self.outs()).0;
        let ghost dmap1 = seed_outputs(ops0, dmap0, self.outs()).1;

        // Reverse pass, in strictly descending identifier order.
        let mut j = self.nodes.len();
        while j > 0
            invariant
                old(session).wf(),
                session.wf(),
                self.wf(ops0),
                ops0 == old(session).ops(),
                n0 == ops0.len(),
                j <= self.node_list().len(),
                dmap@.len() == n0,
                session.ops() == deriv_pass(ops1, dmap1, self.node_list().skip(j as int)).0,
                dmap@ == deriv_pass(ops1, dmap1, self.node_list().skip(j as int)).1,
                forall|t: int| 0 <= t < n0 ==> session.ops()[t] == ops0[t],
                session.ops().len() >= n0,
                forall|t: int| 0 <= t < dmap@.len() ==> ((#[trigger] dmap@[t]) matches Some(v)
                    ==> v < session.ops().len()),
                forall|t: int| 0 <= t < old(session).cache().len() ==> session.cache()[t] == old(session).cache()[t],
                forall|t: int|
                    old(session).cache().len() <= t < session.cache().len() ==> session.cache()[t]
                        is None,
                forall|i: int| 0 <= i < self.outs().len() ==> dmap@[#[trigger] self.outs()[
                    i
                ] as int] is Some,
                forall|jj: int, kk: int|
                    j <= jj < self.node_list().len() && 0 <= kk < inputs_of(
                        ops0[self.node_list()[jj] as int],
                    ).len() ==> dmap@[#[trigger] inputs_of(ops0[self.node_list()[jj] as int])[
                        kk
                    ] as int] is Some,
                forall|jj: int| j <= jj < self.node_list().len() ==> dmap@[#[trigger] self
                    .node_list()[jj] as int] is Some,
            decreases j,
        {
            j -= 1;
            let idx = self.nodes[j];
            let ghost pre_ops = session.ops();
            let ghost pre_dmap = dmap@;
            proof {
                assert(self.node_list()[j as int] == idx);
                assert(idx < n0);
                let sk = self.node_list().skip(j as int);
                assert(sk.drop_first() =~= self.node_list().skip(j as int + 1));
                assert(sk.first() == idx);
                assert(deriv_pass(ops1, dmap1, sk).0 == deriv_step(pre_ops, pre_dmap, idx).0);
                assert(deriv_pass(ops1, dmap1, sk).1 == deriv_step(pre_ops, pre_dmap, idx).1);
                // Completeness of the accumulation: by the time a node is
                // visited, every one of its consumers (all carrying larger
                // identifiers) has already deposited a contribution, so its
                // own slot is filled.
                lemma_visit_has_entry(ops0, self.outs(), self.node_list(), dmap@, j as int);
                assert(dmap@[idx as int] is Some);
            }
            let dopt = dmap[idx];
            if let Some(d) = dopt {
                let node = session.get_node(&idx);
                let operation = node.get_operation();
                proof {
                    assert(operation == pre_ops[idx as int]);
                    assert(op_wf(operation, idx as int));
                    assert forall|k: int| 0 <= k < inputs_of(operation).len() implies (
                    #[trigger] inputs_of(operation)[k]) < pre_ops.len() as int by {
                        assert(inputs_of(operation)[k] < idx);
                    }
                }
                let contribs = generate_deriv_nodes(operation, d, session);
                if let Some(pairs) = contribs {
                    let ghost mid_ops = session.ops();
                    let ghost mid_dmap = dmap@;
                    let ghost spec_pairs = (deriv_contribs(
                        operation,
                        d,
                        pre_ops.len() as Idx,
                    )->0).1;
                    proof {
                        assert(mid_dmap == pre_dmap);
                        assert(forall|i: int| 0 <= i < self.outs().len() ==> mid_dmap[
                            #[trigger] self.outs()[i] as int
                        ] is Some);
                        assert(forall|jj: int, kk: int|
                            j + 1 <= jj < self.node_list().len() && 0 <= kk < inputs_of(
                                ops0[self.node_list()[jj] as int],
                            ).len() ==> mid_dmap[#[trigger] inputs_of(
                                ops0[self.node_list()[jj] as int],
                            )[kk] as int] is Some);
                        assert(forall|jj: int|
                            j + 1 <= jj < self.node_list().len() ==> mid_dmap[#[trigger] self
                                .node_list()[jj] as int] is Some);
                        assert(mid_dmap[idx as int] is Some);
                        assert(operation == ops0[idx as int]);
                    }
                    let mut k: usize = 0;
                    while k < pairs.len()
                        invariant
                            old(session).wf(),
                            session.wf(),
                            self.wf(ops0),
                            ops0 == old(session).ops(),
                            n0 == ops0.len(),
                            idx < n0,
                            dmap@.len() == n0,
                            k <= pairs@.len(),
                            pairs@ == spec_pairs,
                            op_wf(operation, idx as int),
                            pairs@.len() == inputs_of(operation).len(),
                            forall|t: int| 0 <= t < pairs@.len() ==> ((#[trigger] pairs@[t]).0)
                                == inputs_of(operation)[t],
                            forall|t: int| 0 <= t < pairs@.len() ==> ((#[trigger] pairs@[t]).1)
                                < mid_ops.len(),
                            forall|t: int|
                                0 <= t < n0 && mid_dmap[t] is Some ==> dmap@[t] is Some,
                            forall|t: int| 0 <= t < k ==> dmap@[(#[trigger] pairs@[t]).0 as int]
                                is Some,
                            mid_ops.len() >= n0,
                            session.ops() == accumulate(mid_ops, mid_dmap, pairs@.take(
                                k as int,
                            )).0,
                            dmap@ == accumulate(mid_ops, mid_dmap, pairs@.take(k as int)).1,
                            session.ops().len() >= mid_ops.len(),
                            forall|t: int| 0 <= t < n0 ==> session.ops()[t] == ops0[t],
                            forall|t: int| 0 <= t < dmap@.len() ==> ((#[trigger] dmap@[t]) matches
                                Some(v) ==> v < session.ops().len()),
                            forall|t: int| 0 <= t < old(session).cache().len() ==> session.cache()[t]
                                == old(session).cache()[t],
                            forall|t: int|
                                old(session).cache().len() <= t < session.cache().len()
                                    ==> session.cache()[t] is None,
                        decreases pairs@.len() - k,
                    {
                        let (inp, m) = pairs[k];
                        proof {
                            assert(pairs@[k as int].0 == inputs_of(operation)[k as int]);
                            assert(inp < idx);
                            let pk1 = pairs@.take(k as int + 1);
                            assert(pk1.drop_last() =~= pairs@.take(k as int));
                            assert(pk1.last() == pairs@[k as int]);
                        }
                        let ghost cpre = session.cache();
                        let prev_opt = dmap[inp];
                        if let Some(prev) = prev_opt {
                            let s = session.sum(m, prev);
                            dmap.set(inp, Some(s));
                        } else {
                            dmap.set(inp, Some(m));
                        }
                        proof {
                            assert forall|t: int|
                                0 <= t < old(session).cache().len() implies session.cache()[t]
                                == old(session).cache()[t] by {
                                assert(cpre[t] == old(session).cache()[t]);
                            }
                            assert forall|t: int|
                                old(session).cache().len() <= t < session.cache().len() implies
                                session.cache()[t] is None by {
                                if t < cpre.len() {
                                    assert(cpre[t] is None);
                                }
                            }
                        }
                        k += 1;
                    }
                    proof {
                        assert(pairs@.take(pairs@.len() as int) =~= pairs@);
                        // The accumulation invariants hold again: no entry was
                        // erased, and this node's inputs are all filled now.
                        assert forall|i: int| 0 <= i < self.outs().len() implies dmap@[
                            #[trigger] self.outs()[i] as int
                        ] is Some by {
                            assert(self.node_list().contains(self.outs()[i]));
                            let p = choose|p: int|
                                0 <= p < self.node_list().len() && self.node_list()[p] == self
                                    .outs()[i];
                            assert(self.outs()[i] < n0);
                            assert(mid_dmap[self.outs()[i] as int] is Some);
                        }
                        assert forall|jj: int, kk: int|
                            j <= jj < self.node_list().len() && 0 <= kk < inputs_of(
                                ops0[self.node_list()[jj] as int],
                            ).len() implies dmap@[#[trigger] inputs_of(
                            ops0[self.node_list()[jj] as int],
                        )[kk] as int] is Some by {
                            if jj == j as int {
                                assert(pairs@[kk].0 == inputs_of(operation)[kk]);
                                assert(dmap@[(pairs@[kk]).0 as int] is Some);
                            } else {
                                assert(mid_dmap[inputs_of(ops0[self.node_list()[jj] as int])[
                                    kk
                                ] as int] is Some);
                                assert(inputs_of(ops0[self.node_list()[jj] as int])[kk]
                                    < self.node_list()[jj]) by {
                                    assert(op_wf(
                                        ops0[self.node_list()[jj] as int],
                                        self.node_list()[jj] as int,
                                    ));
                                }
                                assert(self.node_list()[jj] < n0);
                            }
                        }
                        assert forall|jj: int|
                            j <= jj < self.node_list().len() implies dmap@[#[trigger] self
                            .node_list()[jj] as int] is Some by {
                            assert(mid_dmap[self.node_list()[jj] as int] is Some);
                            assert(self.node_list()[jj] < n0);
                        }
                    }
                } else {
                    proof {
                        assert(inputs_of(operation).len() == 0);
                    }
                }
            }
        }
        proof {
            assert(self.node_list().skip(0) =~= self.node_list());
        }
        let ghost ops2 = deriv_pass(ops1, dmap1, self.node_list()).0;
        let ghost dmap2 = deriv_pass(ops1, dmap1, self.node_list()).1;

        // The derivative graph delivers every derivative in one evaluation:
        // its outputs are all map entries, ascending by original identifier.
        let mut outs_v: Vec<Idx> = Vec::new();
        let mut k: usize = 0;
        while k < n0
            invariant
                session.wf(),
                dmap@.len() == n0,
                k <= n0,
                dmap@ == dmap2,
                outs_v@ == some_entries(dmap@.take(k as int)),
                forall|t: int| 0 <= t < dmap@.len() ==> ((#[trigger] dmap@[t]) matches Some(v)
                    ==> v < session.ops().len()),
                forall|t: int| 0 <= t < outs_v@.len() ==> (#[trigger] outs_v@[t])
                    < session.ops().len(),
            decreases n0 - k,
        {
            proof {
                let tk1 = dmap@.take(k as int + 1);
                assert(tk1.drop_last() =~= dmap@.take(k as int));
                assert(tk1.last() == dmap@[k as int]);
            }
            let e = dmap[k];
            if let Some(v) = e {
                outs_v.push(v);
                proof {
                    assert(outs_v@ =~= some_entries(dmap@.take(k as int)) + seq![v]);
                }
            }
            k += 1;
        }
        proof {
            assert(dmap@.take(n0 as int) =~= dmap@);
        }
        let g2 = Graph::construct(outs_v, session);
        (g2, DerivMap { entries: dmap })
    }

    /// Builds the graph over the given outputs: the node list is exactly the
    /// set of ancestors of the outputs, sorted ascending by identifier.
    pub fn construct(out_nodes: Vec<Idx>, session: &Session) -> (g: Graph)
        requires
            session.wf(),
            forall|i: int| 0 <= i < out_nodes@.len() ==> (#[trigger] out_nodes@[i])
                < session.ops().len(),
        ensures
            g.wf(session.ops()),
            g.outs() == out_nodes@,
            forall|t: Idx| g.node_list().contains(t) <==> reaches_any(
                session.ops(),
                out_nodes@,
                t as int,
            ),
    {
        let ghost ops = session.ops();
        let n = session.num_nodes();
        let mut marked: Vec<bool> = Vec::new();
        while marked.len() < n
            invariant
                marked@.len() <= n,
                forall|i: int| 0 <= i < marked@.len() ==> !(#[trigger] marked@[i]),
            decreases n - marked@.len(),
        {
            marked.push(false);
        }

        // Mark the outputs themselves: each output reaches itself.
        let mut i: usize = 0;
        while i < out_nodes.len()
            invariant
                session.wf(),
                ops == session.ops(),
                i <= out_nodes@.len(),
                marked@.len() == n,
                n == ops.len(),
                forall|j: int| 0 <= j < out_nodes@.len() ==> (#[trigger] out_nodes@[j])
                    < ops.len(),
                forall|j: int| 0 <= j < i ==> marked@[#[trigger] out_nodes@[j] as int],
                forall|t: int| 0 <= t < n && marked@[t] ==> reaches_any(ops, out_nodes@, t),
            decreases out_nodes@.len() - i,
        {
            let out = out_nodes[i];
            marked.set(out, true);
            proof {
                assert(reaches(ops, out as int, out as int));
                assert(reaches_any(ops, out_nodes@, out as int));
            }
            i += 1;
        }

        // Propagate downward: one descending sweep suffices because a node's
        // inputs always carry smaller identifiers than the node itself.
        let mut idx = n;
        while idx > 0
            invariant
                session.wf(),
                ops == session.ops(),
                idx <= n,
                marked@.len() == n,
                n == ops.len(),
                forall|j: int| 0 <= j < out_nodes@.len() ==> (#[trigger] out_nodes@[j]) < n,
                forall|j: int| 0 <= j < out_nodes@.len() ==> marked@[#[trigger] out_nodes@[j] as int],
                forall|t: int| 0 <= t < n && marked@[t] ==> reaches_any(ops, out_nodes@, t),
                forall|m: int, k: int|
                    idx <= m < n && marked@[m] && 0 <= k < inputs_of(ops[m]).len()
                        ==> marked@[#[trigger] inputs_of(ops[m])[k] as int],
            decreases idx,
        {
            idx -= 1;
            if marked[idx] {
                let node = session.get_node(&idx);
                let children = node.get_input_nodes();
                if let Some(children) = children {
                    let ghost op = ops[idx as int];
                    let mut c: usize = 0;
                    while c < children.len()
                        invariant
                            session.wf(),
                            ops == session.ops(),
                            idx < n,
                            marked@.len() == n,
                            n == ops.len(),
                            children@ == inputs_of(op),
                            op == ops[idx as int],
                            op_wf(op, idx as int),
                            c <= children@.len(),
                            marked@[idx as int],
                            forall|j: int| 0 <= j < out_nodes@.len() ==> (#[trigger] out_nodes@[j])
                                < n,
                            forall|j: int| 0 <= j < out_nodes@.len()
                                ==> marked@[#[trigger] out_nodes@[j] as int],
                            forall|t: int| 0 <= t < n && marked@[t] ==> reaches_any(
                                ops,
                                out_nodes@,
                                t,
                            ),
                            forall|m: int, k: int|
                                idx + 1 <= m < n && marked@[m] && 0 <= k < inputs_of(
                                    ops[m],
                                ).len() ==> marked@[#[trigger] inputs_of(ops[m])[k] as int],
                            forall|k: int| 0 <= k < c ==> marked@[#[trigger] inputs_of(
                                op,
                            )[k] as int],
                        decreases children@.len() - c,
                    {
                        let child = children[c];
                        proof {
                            assert(inputs_of(op)[c as int] == child);
                            assert((child as int) < idx as int);
                            // A marked node's inputs are reachable too.
                            let w = choose|w: int|
                                0 <= w < out_nodes@.len() && reaches(
                                    ops,
                                    out_nodes@[w] as int,
                                    idx as int,
                                );
                            lemma_reaches_step(ops, out_nodes@[w] as int, idx as int, c as int);
                        }
                        marked.set(child, true);
                        c += 1;
                    }
                }
            }
        }

        // Collect the marked identifiers in ascending order.
        let mut nodes: Vec<Idx> = Vec::new();
        let mut k: usize = 0;
        while k < n
            invariant
                marked@.len() == n,
                k <= n,
                forall|j: int| 0 <= j < nodes@.len() ==> (#[trigger] nodes@[j]) < k,
                forall|i: int, j: int| 0 <= i < j < nodes@.len() ==> nodes@[i] < nodes@[j],
                forall|t: Idx| nodes@.contains(t) ==> t < n && marked@[t as int],
                forall|t: int| 0 <= t < k && marked@[t] ==> nodes@.contains(t as Idx),
            decreases n - k,
        {
            if marked[k] {
                let ghost prev = nodes@;
                nodes.push(k);
                proof {
                    assert forall|t: Idx| nodes@.contains(t) implies t < n && marked@[t as int] by {
                        if t != k {
                            let j = choose|j: int| 0 <= j < nodes@.len() && nodes@[j] == t;
                            assert(prev[j] == t);
                            assert(prev.contains(t));
                        }
                    }
                    assert forall|t: int| 0 <= t < k + 1 && marked@[t] implies nodes@.contains(
                        t as Idx,
                    ) by {
                        if t < k {
                            assert(prev.contains(t as Idx));
                            let j = choose|j: int| 0 <= j < prev.len() && prev[j] == t as Idx;
                            assert(nodes@[j] == t as Idx);
                        } else {
                            assert(nodes@[nodes@.len() - 1] == k);
                        }
                    }
                }
            }
            k += 1;
        }

        let g = Graph { nodes, out_nodes };
        proof {
            // Marked and reachable coincide: one direction is the sweep
            // invariant, the other is closure of the marking under inputs.
            assert forall|t: Idx| g.node_list().contains(t) implies reaches_any(
                ops,
                g.outs(),
                t as int,
            ) by {}
            assert forall|t: Idx| reaches_any(ops, g.outs(), t as int) implies g.node_list()
                .contains(t) by {
                let w = choose|w: int|
                    0 <= w < g.outs().len() && reaches(ops, g.outs()[w] as int, t as int);
                lemma_marked_closed(ops, marked@, g.outs()[w] as int, t as int);
                assert(marked@[t as int]);
            }
            // The list is closed under inputs, at earlier positions.
            assert forall|j: int, k2: int|
                0 <= j < g.node_list().len() && 0 <= k2 < inputs_of(
                    ops[g.node_list()[j] as int],
                ).len() implies g.node_list().subrange(0, j).contains(
                inputs_of(ops[g.node_list()[j] as int])[k2],
            ) by {
                let nd = g.node_list()[j];
                let inp = inputs_of(ops[nd as int])[k2];
                assert(marked@[nd as int]);
                assert(marked@[inp as int]);
                assert((inp as int) < nd as int) by {
                    assert(op_wf(ops[nd as int], nd as int));
                }
                assert(g.node_list().contains(inp));
                lemma_sorted_contains_earlier(g.node_list(), inp, j);
            }
            assert forall|i: int| 0 <= i < g.outs().len() implies g.node_list().contains(
                #[trigger] g.outs()[i],
            ) by {
                assert(marked@[g.outs()[i] as int]);
            }
        }
        g
    }
}

/// The derivative map produced alongside a derivative graph: for an original
/// node identifier, the identifier of the node computing the partial
/// derivative of the output set with respect to it. Nodes with no
/// differentiable path to any output have no entry.
pub struct DerivMap {
    pub(crate) entries: Vec<Option<Idx>>,
}

impl View for DerivMap {
    type V = Seq<Option<Idx>>;

    closed spec fn view(&self) -> Seq<Option<Idx>> {
        self.entries@
    }
}

impl DerivMap {
    /// Whether the node has a derivative entry.
    pub fn contains(&self, idx: Idx) -> (b: bool)
        ensures
            b == (idx < self@.len() && self@[idx as int] is Some),
    {
        idx < self.entries.len() && self.entries[idx].is_some()
    }

    /// The derivative node of `idx`; asking for a node with no entry is a
    /// caller error.
    pub fn get(&self, idx: Idx) -> (r: Idx)
        requires
            idx < self@.len(),
            self@[idx as int] is Some,
        ensures
            Some(r) == self@[idx as int],
    {
        self.entries[idx].unwrap()
    }

    /// How many original nodes the map covers (entries present or not).
    pub fn len(&self) -> (n: usize)
        ensures
            n == self@.len(),
    {
        self.entries.len()
    }
}

/// Seeding of the reverse pass: each output, left to right, is given a fresh
/// constant-one node as its derivative; a repeated output is re-seeded, the
/// later seed silently overwriting the earlier one.
pub open spec fn seed_outputs(ops: Seq<Operation>, dmap: Seq<Option<Idx>>, outs: Seq<Idx>) -> (
    Seq<Operation>,
    Seq<Option<Idx>>,
)
    decreases outs.len(),
{
    if outs.len() == 0 {
        (ops, dmap)
    } else {
        let rest = seed_outputs(ops, dmap, outs.drop_last());
        (rest.0.push(one_op()), rest.1.update(outs.last() as int, Some(rest.0.len() as Idx)))
    }
}

/// Accumulation of contribution pairs into the map, left to right: a first
/// contribution lands directly; a later one for the same input is summed with
/// the total so far through a fresh Sum node (the multivariate chain rule).
pub open spec fn accumulate(ops: Seq<Operation>, dmap: Seq<Option<Idx>>, pairs: Seq<(Idx, Idx)>) -> (
    Seq<Operation>,
    Seq<Option<Idx>>,
)
    decreases pairs.len(),
{
    if pairs.len() == 0 {
        (ops, dmap)
    } else {
        let rest = accumulate(ops, dmap, pairs.drop_last());
        let inp = pairs.last().0;
        let m = pairs.last().1;
        match rest.1[inp as int] {
            Some(prev) => (
                rest.0.push(Operation::Sum(m, prev)),
                rest.1.update(inp as int, Some(rest.0.len() as Idx)),
            ),
            None => (rest.0, rest.1.update(inp as int, Some(m))),
        }
    }
}

/// One reverse-pass visit of node `n`: nothing happens unless `n` has an
/// accumulated derivative and a differentiable operation; otherwise its
/// contributions are generated and accumulated into its inputs' slots.
pub open spec fn deriv_step(ops: Seq<Operation>, dmap: Seq<Option<Idx>>, n: Idx) -> (
    Seq<Operation>,
    Seq<Option<Idx>>,
)
{
    match dmap[n as int] {
        Some(d) => match deriv_contribs(ops[n as int], d, ops.len() as Idx) {
            Some((new_ops, pairs)) => accumulate(ops + new_ops, dmap, pairs),
            None => (ops, dmap),
        },
        None => (ops, dmap),
    }
}

/// The whole reverse pass over a topological order, visiting nodes in
/// strictly descending identifier order (the first listed node last).
pub open spec fn deriv_pass(ops: Seq<Operation>, dmap: Seq<Option<Idx>>, order: Seq<Idx>) -> (
    Seq<Operation>,
    Seq<Option<Idx>>,
)
    decreases order.len(),
{
    if order.len() == 0 {
        (ops, dmap)
    } else {
        let rest = deriv_pass(ops, dmap, order.drop_first());
        deriv_step(rest.0, rest.1, order.first())
    }
}

/// The derivative-node identifiers present in the map, ascending by original
/// node identifier: the outputs of the derivative graph.
pub open spec fn some_entries(dmap: Seq<Option<Idx>>) -> Seq<Idx>
    decreases dmap.len(),
{
    if dmap.len() == 0 {
        seq![]
    } else {
        some_entries(dmap.drop_last()) + match dmap.last() {
            Some(v) => seq![v],
            None => seq![],
        }
    }
}

/// Crate-internal bridge between the graph's abstract view and its fields.
pub(crate) proof fn lemma_graph_view(g: &Graph)
    ensures
        g.node_list() == g.nodes@,
        g.outs() == g.out_nodes@,
{
}

/// A value permitted for a node stays permitted when further cache slots are
/// filled in: `forward_ok` only reads slots that are already `Some`.
proof fn lemma_forward_ok_stable<F: Fn(ScalarOp) -> Val>(
    arith: F,
    op: Operation,
    vals1: Seq<Option<Val>>,
    vals2: Seq<Option<Val>>,
    v: Val,
)
    requires
        forward_ok(arith, op, vals1, v),
        vals2.len() == vals1.len(),
        forall|i: int| 0 <= i < vals1.len() && vals1[i] is Some ==> vals2[i] == vals1[i],
        forall|k: int| 0 <= k < inputs_of(op).len() ==> 0 <= (#[trigger] inputs_of(op)[k] as int)
            < vals1.len(),
    ensures
        forward_ok(arith, op, vals2, v),
{
    match op {
        Operation::Sum(a, b) | Operation::Multiply(a, b) => {
            assert(inputs_of(op)[0] == a && inputs_of(op)[1] == b);
        },
        Operation::Negative(a) | Operation::Exponential(a) | Operation::Ln(a) => {
            assert(inputs_of(op)[0] == a);
        },
        _ => {},
    }
}

/// The memoizing evaluation walk: each listed node in order, skipped when a
/// cached value is present, computed from its (already resolved) inputs and
/// cached otherwise.
pub(crate) fn eval_node_list<F: Fn(ScalarOp) -> Val>(
    order: &Vec<Idx>,
    nodes: &Vec<Node>,
    values: &mut Vec<Option<Val>>,
    arith: &F,
)
    requires
        ops_wf(nodes@.map(|i: int, n: Node| n.op())),
        order_wf(nodes@.map(|i: int, n: Node| n.op()), order@),
        old(values)@.len() == nodes@.len(),
        forall|p: ScalarOp| call_requires(*arith, (p,)),
    ensures
        final(values)@.len() == old(values)@.len(),
        forall|i: int| 0 <= i < old(values)@.len() && old(values)@[i] is Some ==> final(values)@[i] == old(values)@[i],
        forall|i: int| 0 <= i < old(values)@.len() && !order@.contains(i as Idx) ==> final(values)@[i] == old(values)@[i],
        forall|j: int| 0 <= j < order@.len() ==> final(values)@[#[trigger] order@[j] as int]
            is Some,
        forall|j: int|
            0 <= j < order@.len() && old(values)@[order@[j] as int] is None ==> forward_ok(
                *arith,
                nodes@.map(|i: int, n: Node| n.op())[#[trigger] order@[j] as int],
                final(values)@,
                final(values)@[order@[j] as int]->0,
            ),
{
    let ghost ops = nodes@.map(|i: int, n: Node| n.op());
    let mut j: usize = 0;
    while j < order.len()
        invariant
            ops == nodes@.map(|i: int, n: Node| n.op()),
            ops_wf(ops),
            order_wf(ops, order@),
            values@.len() == nodes@.len(),
            old(values)@.len() == nodes@.len(),
            forall|p: ScalarOp| call_requires(*arith, (p,)),
            j <= order@.len(),
            forall|i: int| 0 <= i < old(values)@.len() && old(values)@[i] is Some ==> values@[i]
                == old(values)@[i],
            forall|i: int| 0 <= i < old(values)@.len() && !order@.subrange(0, j as int).contains(
                i as Idx,
            ) ==> values@[i] == old(values)@[i],
            forall|jj: int| 0 <= jj < j ==> values@[#[trigger] order@[jj] as int] is Some,
            forall|jj: int|
                0 <= jj < j && old(values)@[order@[jj] as int] is None ==> forward_ok(
                    *arith,
                    ops[#[trigger] order@[jj] as int],
                    values@,
                    values@[order@[jj] as int]->0,
                ),
        decreases order@.len() - j,
    {
        let nid = order[j];
        proof {
            assert(order@[j as int] < ops.len());
        }
        if values[nid].is_none() {
            let node = nodes[nid];
            proof {
                // Every input of this node sits earlier in the list, hence is
                // already resolved.
                assert forall|k: int| 0 <= k < inputs_of(node.op()).len() implies {
                    let inp = #[trigger] inputs_of(node.op())[k] as int;
                    0 <= inp < values@.len() && values@[inp] is Some
                } by {
                    assert(node.op() == ops[nid as int]);
                    assert(order@.subrange(0, j as int).contains(inputs_of(ops[nid as int])[k]));
                    let jj = choose|jj: int|
                        0 <= jj < j && order@[jj] == inputs_of(ops[nid as int])[k];
                    assert(values@[order@[jj] as int] is Some);
                }
            }
            let v = node.evaluate(values, arith);
            let ghost pre = values@;
            values.set(nid, Some(v));
            proof {
                assert forall|jj: int|
                    0 <= jj < j + 1 && old(values)@[order@[jj] as int] is None implies forward_ok(
                    *arith,
                    ops[#[trigger] order@[jj] as int],
                    values@,
                    values@[order@[jj] as int]->0,
                ) by {
                    let m = order@[jj] as int;
                    if jj < j {
                        assert(forward_ok(*arith, ops[m], pre, pre[m]->0));
                        assert(pre[m] is Some);
                        assert(values@[m] == pre[m]);
                        assert(op_wf(ops[m], m));
                        lemma_forward_ok_stable(*arith, ops[m], pre, values@, pre[m]->0);
                    } else {
                        assert(forward_ok(*arith, node.op(), pre, v));
                        assert(op_wf(ops[m], m));
                        lemma_forward_ok_stable(*arith, ops[m], pre, values@, v);
                    }
                }
                assert forall|i: int|
                    0 <= i < old(values)@.len() && !order@.subrange(0, j as int + 1).contains(
                        i as Idx,
                    ) implies values@[i] == old(values)@[i] by {
                    if i != nid as int {
                        if order@.subrange(0, j as int).contains(i as Idx) {
                            let jj = choose|jj: int|
                                0 <= jj < j && order@.subrange(0, j as int)[jj] == i as Idx;
                            assert(order@.subrange(0, j as int + 1)[jj] == i as Idx);
                        }
                    } else {
                        assert(order@.subrange(0, j as int + 1)[j as int] == nid);
                    }
                }
            }
        } else {
            proof {
                assert forall|i: int|
                    0 <= i < old(values)@.len() && !order@.subrange(0, j as int + 1).contains(
                        i as Idx,
                    ) implies values@[i] == old(values)@[i] by {
                    if order@.subrange(0, j as int).contains(i as Idx) {
                        let jj = choose|jj: int|
                            0 <= jj < j && order@.subrange(0, j as int)[jj] == i as Idx;
                        assert(order@.subrange(0, j as int + 1)[jj] == i as Idx);
                    }
                }
            }
        }
        j += 1;
    }
    proof {
        assert(order@.subrange(0, order@.len() as int) =~= order@);
    }
}

/// By the time the reverse pass visits a node, its derivative slot is filled:
/// the node is an output (seeded), or some consumer of it sits later in the
/// order — already visited, hence its inputs' slots are all filled.
proof fn lemma_visit_has_entry(
    ops0: Seq<Operation>,
    outs: Seq<Idx>,
    order: Seq<Idx>,
    dmap: Seq<Option<Idx>>,
    j: int,
)
    requires
        ops_wf(ops0),
        ops0.len() <= usize::MAX,
        order_wf(ops0, order),
        forall|t: Idx| (#[trigger] order.contains(t)) <==> reaches_any(ops0, outs, t as int),
        forall|i: int| 0 <= i < outs.len() ==> dmap[#[trigger] outs[i] as int] is Some,
        forall|jj: int, kk: int|
            j < jj < order.len() && 0 <= kk < inputs_of(ops0[order[jj] as int]).len() ==> dmap[
                #[trigger] inputs_of(ops0[order[jj] as int])[kk] as int
            ] is Some,
        0 <= j < order.len(),
    ensures
        dmap[order[j] as int] is Some,
{
    let idx = order[j];
    if exists|w: int| 0 <= w < outs.len() && outs[w] == idx {
        let w = choose|w: int| 0 <= w < outs.len() && outs[w] == idx;
        assert(dmap[outs[w] as int] is Some);
    } else {
        assert(order.contains(idx));
        assert(reaches_any(ops0, outs, idx as int));
        let w = choose|w: int|
            0 <= w < outs.len() && reaches(ops0, #[trigger] outs[w] as int, idx as int);
        let from = outs[w] as int;
        assert(from != idx as int);
        assert(reaches(ops0, from, from));
        assert(reaches_any(ops0, outs, from));
        assert(order.contains(outs[w]));
        let p = choose|p: int| 0 <= p < order.len() && order[p] == outs[w];
        assert((order[p]) < ops0.len());
        lemma_reaches_has_consumer(ops0, from, idx as int);
        let (c, kc) = choose|c: int, kc: int|
            0 <= c < ops0.len() && reaches(ops0, from, c) && 0 <= kc < inputs_of(ops0[c]).len() && (
            #[trigger] inputs_of(ops0[c])[kc]) == idx as int;
        assert(reaches(ops0, outs[w] as int, c));
        assert(reaches_any(ops0, outs, c));
        assert((c as Idx) as int == c);
        assert(order.contains(c as Idx));
        let jc = choose|jc: int| 0 <= jc < order.len() && order[jc] == c as Idx;
        assert(op_wf(ops0[c], c));
        assert(idx < c);
        assert(jc > j) by {
            if jc < j {
                assert(order[jc] < order[j]);
            }
        }
        assert(inputs_of(ops0[order[jc] as int])[kc] == idx);
        assert(dmap[idx as int] is Some);
    }
}

/// A strict ancestor is consumed along the way: if `from` reaches a different
/// node `to`, then some node that `from` reaches lists `to` among its inputs.
proof fn lemma_reaches_has_consumer(ops: Seq<Operation>, from: int, to: int)
    requires
        ops_wf(ops),
        0 <= from < ops.len(),
        reaches(ops, from, to),
        from != to,
    ensures
        exists|c: int, k: int|
            0 <= c < ops.len() && reaches(ops, from, c) && 0 <= k < inputs_of(ops[c]).len() && (
            #[trigger] inputs_of(ops[c])[k]) == to,
    decreases from,
{
    let k0 = choose|k0: int|
        0 <= k0 < inputs_of(ops[from]).len() && (inputs_of(ops[from])[k0]) < from && reaches(
            ops,
            inputs_of(ops[from])[k0] as int,
            to,
        );
    let mid = inputs_of(ops[from])[k0] as int;
    if mid == to {
        assert(reaches(ops, from, from));
        assert(0 <= from < ops.len() && reaches(ops, from, from) && 0 <= k0 < inputs_of(
            ops[from],
        ).len() && (inputs_of(ops[from])[k0]) == to);
    } else {
        assert(op_wf(ops[from], from));
        assert(0 <= mid < ops.len());
        lemma_reaches_has_consumer(ops, mid, to);
        let (c, k) = choose|c: int, k: int|
            0 <= c < ops.len() && reaches(ops, mid, c) && 0 <= k < inputs_of(ops[c]).len() && (
            #[trigger] inputs_of(ops[c])[k]) == to;
        assert(reaches(ops, from, c));
        assert(0 <= c < ops.len() && reaches(ops, from, c) && 0 <= k < inputs_of(ops[c]).len() && (
        inputs_of(ops[c])[k]) == to);
    }
}

/// If `from` reaches `mid`, it also reaches each input of `mid`.
proof fn lemma_reaches_step(ops: Seq<Operation>, from: int, mid: int, k: int)
    requires
        ops_wf(ops),
        0 <= mid < ops.len(),
        0 <= k < inputs_of(ops[mid]).len(),
        reaches(ops, from, mid),
    ensures
        reaches(ops, from, inputs_of(ops[mid])[k] as int),
    decreases from,
{
    assert(op_wf(ops[mid], mid));
    let to = inputs_of(ops[mid])[k] as int;
    if from == mid {
        assert(inputs_of(ops[mid])[k] < mid);
        assert(reaches(ops, to, to));
        assert(reaches(ops, from, to));
    } else {
        let k0 = choose|k0: int|
            0 <= k0 < inputs_of(ops[from]).len() && (inputs_of(ops[from])[k0]) < from && reaches(
                ops,
                inputs_of(ops[from])[k0] as int,
                mid,
            );
        lemma_reaches_step(ops, inputs_of(ops[from])[k0] as int, mid, k);
        assert(reaches(ops, from, to));
    }
}

/// A marking that contains `from` and is closed under inputs contains
/// everything `from` reaches.
proof fn lemma_marked_closed(ops: Seq<Operation>, marked: Seq<bool>, from: int, to: int)
    requires
        ops_wf(ops),
        marked.len() == ops.len(),
        0 <= from < ops.len(),
        marked[from],
        forall|m: int, k: int|
            0 <= m < ops.len() && marked[m] && 0 <= k < inputs_of(ops[m]).len()
                ==> marked[#[trigger] inputs_of(ops[m])[k] as int],
        reaches(ops, from, to),
    ensures
        0 <= to < ops.len() && marked[to],
    decreases from,
{
    if from == to {
    } else {
        let k = choose|k: int|
            0 <= k < inputs_of(ops[from]).len() && (inputs_of(ops[from])[k]) < from && reaches(
                ops,
                inputs_of(ops[from])[k] as int,
                to,
            );
        assert(op_wf(ops[from], from));
        assert(marked[inputs_of(ops[from])[k] as int]);
        lemma_marked_closed(ops, marked, inputs_of(ops[from])[k] as int, to);
    }
}

/// In a strictly ascending list, any member smaller than the element at
/// position `j` appears before position `j`.
proof fn lemma_sorted_contains_earlier(order: Seq<Idx>, x: Idx, j: int)
    requires
        forall|i1: int, i2: int| 0 <= i1 < i2 < order.len() ==> order[i1] < order[i2],
        0 <= j < order.len(),
        order.contains(x),
        x < order[j],
    ensures
        order.subrange(0, j).contains(x),
{
    let i = choose|i: int| 0 <= i < order.len() && order[i] == x;
    if i >= j {
        if i > j {
            assert(order[j] < order[i]);
        }
        assert(false);
    }
    assert(order.subrange(0, j)[i] == x);
}

} // verus!
