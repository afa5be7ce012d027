use vstd::prelude::*;

use crate::operation::Idx;
use crate::operation::Operation;
use crate::operation::ScalarOp;
use crate::operation::Val;
use crate::operation::forward_ok;
use crate::operation::inputs_of;
use crate::operation::local_partials;
use crate::operation::op_wf;
use crate::session::Session;

verus! {

/// What `generate_deriv_nodes` does when the arena holds `base` nodes and the
/// derivative of the node itself lives at `d`: the appended nodes (the local
/// partials, then one chain-rule Multiply per pair), and the returned
/// (input, contribution-node) pairs.
pub open spec fn deriv_contribs(op: Operation, d: Idx, base: Idx) -> Option<
    (Seq<Operation>, Seq<(Idx, Idx)>),
> {
    match local_partials(op, base) {
        Some((new_ops, pairs)) => Some(
            (
                new_ops + Seq::new(pairs.len(), |i: int| Operation::Multiply(d, pairs[i].1)),
                Seq::new(pairs.len(), |i: int| (pairs[i].0, (base + new_ops.len() + i) as Idx)),
            ),
        ),
        None => None,
    }
}

/// A node of the arena: an identifier paired with its operation, immutable
/// after creation.
#[derive(Clone, Copy, Debug)]
pub struct Node {
    pub(crate) idx: Idx,
    pub(crate) operation: Operation,
}

impl Node {
    /// The identifier this node was created under.
    pub closed spec fn id(self) -> Idx {
        self.idx
    }

    /// The operation this node performs.
    pub closed spec fn op(self) -> Operation {
        self.operation
    }

    pub fn new(own_idx: Idx, operation: Operation) -> (n: Node)
        ensures
            n.id() == own_idx,
            n.op() == operation,
    {
        Node { idx: own_idx, operation }
    }

    /// This node's numeric value under the evaluator callback; see
    /// `Operation::forward`.
    pub fn evaluate<F: Fn(ScalarOp) -> Val>(
        &self,
        current_values: &Vec<Option<Val>>,
        arith: &F,
    ) -> (v: Val)
        requires
            forall|p: ScalarOp| call_requires(*arith, (p,)),
            forall|k: int| 0 <= k < inputs_of(self.op()).len() ==> {
                let j = #[trigger] inputs_of(self.op())[k] as int;
                0 <= j < current_values@.len() && current_values@[j] is Some
            },
        ensures
            forward_ok(*arith, self.op(), current_values@, v),
    {
        self.operation.forward(current_values, arith)
    }

    /// The identifiers this node's operation declares as inputs.
    pub fn get_input_nodes(&self) -> (r: Option<Vec<Idx>>)
        ensures
            match r {
                Some(v) => v@ == inputs_of(self.op()) && inputs_of(self.op()).len() > 0,
                None => inputs_of(self.op()).len() == 0,
            },
    {
        self.operation.get_input_nodes()
    }

    pub fn get_operation(&self) -> (op: Operation)
        ensures
            op == self.op(),
    {
        self.operation
    }
}

/// For a differentiable operation, the list of (input, contribution-node)
/// pairs of one reverse-pass visit: each local partial ∂own/∂input is
/// multiplied by the derivative already accumulated for the node itself
/// (`own_deriv_node`), as a fresh Multiply node. A leaf yields `None`.
pub fn generate_deriv_nodes(
    operation: Operation,
    own_deriv_node: Idx,
    session: &mut Session,
) -> (r: Option<Vec<(Idx, Idx)>>)
    requires
        old(session).wf(),
        op_wf(operation, old(session).ops().len() as int),
        own_deriv_node < old(session).ops().len(),
    ensures
        final(session).wf(),
        forall|i: int| 0 <= i < old(session).ops().len() ==> final(session).ops()[i] == old(session).ops()[i],
        forall|i: int| 0 <= i < old(session).cache().len() ==> final(session).cache()[i] == old(session).cache()[i],
        forall|i: int|
            old(session).cache().len() <= i < final(session).cache().len() ==> final(session).cache()[i] is None,
        match deriv_contribs(operation, own_deriv_node, old(session).ops().len() as Idx) {
            Some((new_ops, pairs)) => {
                &&& r matches Some(v) && v@ == pairs
                &&& final(session).ops() == old(session).ops() + new_ops
                &&& pairs.len() == inputs_of(operation).len()
                &&& forall|i: int| 0 <= i < pairs.len() ==> ((#[trigger] pairs[i]).0)
                    == inputs_of(operation)[i]
                &&& forall|i: int| 0 <= i < pairs.len() ==> ((#[trigger] pairs[i]).1) < final(session).ops().len()
            },
            None => r is None && final(session).ops() == old(session).ops(),
        },
{
    let base = session.num_nodes();
    let partial_derivs = operation.gen_partial_derivs(session);
    let ghost mid = *session;
    match partial_derivs {
        Some(pd) => {
            let ghost lp = local_partials(operation, base)->0;
            let ghost spec_ops = (deriv_contribs(operation, own_deriv_node, base)->0).0;
            let ghost spec_pairs = (deriv_contribs(operation, own_deriv_node, base)->0).1;
            let mut v: Vec<(Idx, Idx)> = Vec::new();
            let mut k: usize = 0;
            while k < pd.len()
                invariant
                    old(session).wf(),
                    session.wf(),
                    mid.wf(),
                    k <= pd@.len(),
                    pd@ == lp.1,
                    own_deriv_node < mid.ops().len(),
                    mid.ops() == old(session).ops() + lp.0,
                    old(session).ops().len() == base,
                    lp == local_partials(operation, base)->0,
                    deriv_contribs(operation, own_deriv_node, base) matches Some(dc) && dc.0
                        == spec_ops && dc.1 == spec_pairs,
                    forall|i: int| 0 <= i < pd@.len() ==> ((#[trigger] pd@[i]).1) < mid.ops().len(),
                    session.ops() == mid.ops() + Seq::new(
                        k as nat,
                        |i: int| Operation::Multiply(own_deriv_node, lp.1[i].1),
                    ),
                    v@ == Seq::new(
                        k as nat,
                        |i: int| (lp.1[i].0, (base + lp.0.len() + i) as Idx),
                    ),
                    forall|i: int| 0 <= i < old(session).cache().len() ==> session.cache()[i]
                        == old(session).cache()[i],
                    forall|i: int|
                        old(session).cache().len() <= i < session.cache().len()
                            ==> session.cache()[i] is None,
                decreases pd@.len() - k,
            {
                let (inp, pdn) = pd[k];
                let ghost cpre = session.cache();
                let ghost opre = session.ops();
                let m = session.multiply(own_deriv_node, pdn);
                v.push((inp, m));
                proof {
                    assert(session.cache() == cpre.push(None::<Val>));
                    assert(cpre.len() == opre.len());
                    assert(opre.len() == mid.ops().len() + k as int);
                    assert(old(session).cache().len() == old(session).ops().len());
                    assert(mid.ops().len() == old(session).ops().len() + lp.0.len());
                    assert(cpre.len() >= old(session).cache().len());
                    assert forall|i: int|
                        0 <= i < old(session).cache().len() implies session.cache()[i] == old(
                        session,
                    ).cache()[i] by {
                        assert(cpre[i] == old(session).cache()[i]);
                    }
                    assert forall|i: int|
                        old(session).cache().len() <= i < session.cache().len() implies session
                        .cache()[i] is None by {
                        if i < cpre.len() {
                            assert(cpre[i] is None);
                        }
                    }
                    assert(session.ops() =~= mid.ops() + Seq::new(
                        (k + 1) as nat,
                        |i: int| Operation::Multiply(own_deriv_node, lp.1[i].1),
                    ));
                    assert(m == base + lp.0.len() + k);
                    assert(v@ =~= Seq::new(
                        (k + 1) as nat,
                        |i: int| (lp.1[i].0, (base + lp.0.len() + i) as Idx),
                    ));
                }
                k += 1;
            }
            proof {
                assert(v@ =~= spec_pairs);
                assert(session.ops() =~= old(session).ops() + spec_ops);
            }
            Some(v)
        },
        None => None,
    }
}

} // verus!
