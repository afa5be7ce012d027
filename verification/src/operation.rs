use vstd::prelude::*;

use crate::session::Session;

verus! {

/// Identifier of a node in the arena. Identifiers are handed out in creation
/// order and never reused, so a node's inputs always carry strictly smaller
/// identifiers than the node itself: ascending identifier order is a
/// topological order for free.
pub type Idx = usize;

/// A scalar value as it travels through the engine: the raw bit pattern of an
/// IEEE-754 single-precision number. The engine never interprets the bits;
/// all arithmetic on them is delegated to the caller's evaluator callback.
pub type Val = u32;

/// Bit pattern of the scalar one.
pub const ONE_BITS: Val = 0x3F80_0000;

/// Bit pattern of the scalar negative one.
pub const NEG_ONE_BITS: Val = 0xBF80_0000;

/// Bit pattern of the scalar zero.
pub const ZERO_BITS: Val = 0;

/// The closed set of primitive node kinds. Composite behaviours (subtraction,
/// squaring, division, exponentiation by an arbitrary power) are built by
/// composing these at construction time, never as separate variants.
#[derive(Clone, Copy, Debug, PartialEq, Eq, Structural)]
pub enum Operation {
    Constant(Val),
    Placeholder,
    Sum(Idx, Idx),
    Multiply(Idx, Idx),
    Negative(Idx),
    Exponential(Idx),
    Ln(Idx),
}

/// A primitive arithmetic request handed to the evaluator callback, carrying
/// already-resolved operand bit patterns.
#[derive(Clone, Copy, Debug, PartialEq, Eq, Structural)]
pub enum ScalarOp {
    Add(Val, Val),
    Mul(Val, Val),
    Neg(Val),
    Exp(Val),
    Ln(Val),
}

/// The identifiers a node declares as its inputs.
pub open spec fn inputs_of(op: Operation) -> Seq<Idx> {
    match op {
        Operation::Sum(a, b) => seq![a, b],
        Operation::Multiply(a, b) => seq![a, b],
        Operation::Negative(a) => seq![a],
        Operation::Exponential(a) => seq![a],
        Operation::Ln(a) => seq![a],
        Operation::Constant(_) => seq![],
        Operation::Placeholder => seq![],
    }
}

/// An operation may only reference identifiers strictly below `bound`.
pub open spec fn op_wf(op: Operation, bound: int) -> bool {
    forall|k: int| 0 <= k < inputs_of(op).len() ==> (#[trigger] inputs_of(op)[k]) < bound
}

/// Every node references only nodes created before it. This is the
/// acyclicity-by-construction invariant of the arena.
pub open spec fn ops_wf(ops: Seq<Operation>) -> bool {
    forall|i: int| 0 <= i < ops.len() ==> op_wf(#[trigger] ops[i], i)
}

/// What a node's freshly computed value may be, given the resolved values of
/// the arena so far. For an arithmetic node the value must be one the
/// evaluator callback can return on exactly this node's resolved inputs; for
/// a constant it is the stored bits; an unfed placeholder resolves to zero.
pub open spec fn forward_ok<F: Fn(ScalarOp) -> Val>(
    arith: F,
    op: Operation,
    vals: Seq<Option<Val>>,
    v: Val,
) -> bool {
    match op {
        Operation::Constant(c) => v == c,
        Operation::Placeholder => v == ZERO_BITS,
        Operation::Sum(a, b) => vals[a as int] matches Some(va) && vals[b as int] matches Some(
            vb,
        ) && call_ensures(arith, (ScalarOp::Add(va, vb),), v),
        Operation::Multiply(a, b) => vals[a as int] matches Some(va) && vals[b as int] matches Some(
            vb,
        ) && call_ensures(arith, (ScalarOp::Mul(va, vb),), v),
        Operation::Negative(a) => vals[a as int] matches Some(va) && call_ensures(
            arith,
            (ScalarOp::Neg(va),),
            v,
        ),
        Operation::Exponential(a) => vals[a as int] matches Some(va) && call_ensures(
            arith,
            (ScalarOp::Exp(va),),
            v,
        ),
        Operation::Ln(a) => vals[a as int] matches Some(va) && call_ensures(
            arith,
            (ScalarOp::Ln(va),),
            v,
        ),
    }
}

/// A constant-one node, the seed of every derivative and the local
/// derivative of a sum.
pub open spec fn one_op() -> Operation {
    Operation::Constant(ONE_BITS)
}

/// A constant-negative-one node, the local derivative of a negation.
pub open spec fn neg_one_op() -> Operation {
    Operation::Constant(NEG_ONE_BITS)
}

/// What `gen_partial_derivs` does when the arena holds `base` nodes: the
/// nodes it appends, and the returned (input, local-derivative-node) pairs.
/// `None` marks a differentiation leaf (constant or placeholder).
pub open spec fn local_partials(op: Operation, base: Idx) -> Option<
    (Seq<Operation>, Seq<(Idx, Idx)>),
> {
    match op {
        Operation::Sum(a, b) => Some(
            (seq![one_op(), one_op()], seq![(a, base), (b, (base + 1) as Idx)]),
        ),
        Operation::Multiply(a, b) => Some((seq![], seq![(a, b), (b, a)])),
        Operation::Negative(a) => Some((seq![neg_one_op()], seq![(a, base)])),
        Operation::Exponential(a) => Some((seq![Operation::Exponential(a)], seq![(a, base)])),
        Operation::Ln(a) => Some(
            (
                seq![
                    one_op(),
                    neg_one_op(),
                    Operation::Ln(a),
                    Operation::Multiply((base + 2) as Idx, (base + 1) as Idx),
                    Operation::Exponential((base + 3) as Idx),
                    Operation::Multiply(base, (base + 4) as Idx),
                ],
                seq![(a, (base + 5) as Idx)],
            ),
        ),
        Operation::Constant(_) | Operation::Placeholder => None,
    }
}

impl Operation {
    /// The symbolic local derivatives of this node with respect to each of
    /// its inputs, each expressed as arena nodes: a sum contributes one to
    /// each side, a product contributes the opposite factor, a negation
    /// contributes negative one, an exponential its own re-expression, and a
    /// natural logarithm the reciprocal of its input (via the division
    /// composition). Leaves return `None`, halting backward propagation.
    pub fn gen_partial_derivs(&self, session: &mut Session) -> (r: Option<Vec<(Idx, Idx)>>)
        requires
            old(session).wf(),
            op_wf(*self, old(session).ops().len() as int),
        ensures
            final(session).wf(),
            forall|i: int| 0 <= i < old(session).ops().len() ==> final(session).ops()[i] == old(session).ops()[i],
            forall|i: int| 0 <= i < old(session).cache().len() ==> final(session).cache()[i] == old(session).cache()[i],
            forall|i: int|
                old(session).cache().len() <= i < final(session).cache().len() ==> final(session).cache()[i] is None,
            match local_partials(*self, old(session).ops().len() as Idx) {
                Some((new_ops, pairs)) => {
                    &&& r matches Some(v) && v@ == pairs
                    &&& final(session).ops() == old(session).ops() + new_ops
                    &&& pairs.len() == inputs_of(*self).len()
                    &&& forall|i: int| 0 <= i < pairs.len() ==> ((#[trigger] pairs[i]).0)
                        == inputs_of(*self)[i]
                    &&& forall|i: int| 0 <= i < pairs.len() ==> ((#[trigger] pairs[i]).1)
                        < final(session).ops().len()
                },
                None => r is None && final(session).ops() == old(session).ops(),
            },
    {
        let ghost base = old(session).ops().len() as Idx;
        match self {
            Operation::Sum(a, b) => {
                let p1 = session.one();
                let p2 = session.one();
                let mut v: Vec<(Idx, Idx)> = Vec::new();
                v.push((*a, p1));
                v.push((*b, p2));
                proof {
                    let (new_ops, pairs) = local_partials(*self, base)->0;
                    assert(v@ =~= pairs);
                    assert(session.ops() =~= old(session).ops() + new_ops);
                    assert(inputs_of(*self)[0] == *a && inputs_of(*self)[1] == *b);
                }
                Some(v)
            },
            Operation::Multiply(a, b) => {
                let mut v: Vec<(Idx, Idx)> = Vec::new();
                v.push((*a, *b));
                v.push((*b, *a));
                proof {
                    let (new_ops, pairs) = local_partials(*self, base)->0;
                    assert(v@ =~= pairs);
                    assert(session.ops() =~= old(session).ops() + new_ops);
                    assert(inputs_of(*self)[0] == *a && inputs_of(*self)[1] == *b);
                }
                Some(v)
            },
            Operation::Negative(a) => {
                let c = session.constant(NEG_ONE_BITS);
                let mut v: Vec<(Idx, Idx)> = Vec::new();
                v.push((*a, c));
                proof {
                    let (new_ops, pairs) = local_partials(*self, base)->0;
                    assert(v@ =~= pairs);
                    assert(session.ops() =~= old(session).ops() + new_ops);
                    assert(inputs_of(*self)[0] == *a);
                }
                Some(v)
            },
            Operation::Ln(a) => {
                proof {
                    assert(inputs_of(*self)[0] == *a);
                    assert(*a < old(session).ops().len());
                }
                let one = session.one();
                let d = session.divide(one, *a);
                let mut v: Vec<(Idx, Idx)> = Vec::new();
                v.push((*a, d));
                proof {
                    let (new_ops, pairs) = local_partials(*self, base)->0;
                    assert(v@ =~= pairs);
                    assert(session.ops() =~= old(session).ops() + new_ops);
                    assert(inputs_of(*self)[0] == *a);
                }
                Some(v)
            },
            Operation::Exponential(a) => {
                proof {
                    assert(inputs_of(*self)[0] == *a);
                    assert(*a < old(session).ops().len());
                }
                let e = session.exp(*a);
                let mut v: Vec<(Idx, Idx)> = Vec::new();
                v.push((*a, e));
                proof {
                    let (new_ops, pairs) = local_partials(*self, base)->0;
                    assert(v@ =~= pairs);
                    assert(session.ops() =~= old(session).ops() + new_ops);
                    assert(inputs_of(*self)[0] == *a);
                }
                Some(v)
            },
            Operation::Placeholder | Operation::Constant(_) => None,
        }
    }

    /// Pairs this operation with an identifier as a node value.
    pub fn get_node(&self, idx: Idx) -> (n: crate::node::Node)
        ensures
            n.id() == idx,
            n.op() == *self,
    {
        crate::node::Node::new(idx, *self)
    }

    /// The declared inputs, or `None` for a leaf (constant or placeholder).
    pub fn get_input_nodes(&self) -> (r: Option<Vec<Idx>>)
        ensures
            match r {
                Some(v) => v@ == inputs_of(*self) && inputs_of(*self).len() > 0,
                None => inputs_of(*self).len() == 0,
            },
    {
        match self {
            Operation::Sum(a, b) | Operation::Multiply(a, b) => {
                let mut v: Vec<Idx> = Vec::new();
                v.push(*a);
                v.push(*b);
                proof {
                    assert(v@ =~= inputs_of(*self));
                }
                Some(v)
            },
            Operation::Negative(a) | Operation::Exponential(a) | Operation::Ln(a) => {
                let mut v: Vec<Idx> = Vec::new();
                v.push(*a);
                proof {
                    assert(v@ =~= inputs_of(*self));
                }
                Some(v)
            },
            _ => None,
        }
    }

    /// This node's numeric value, given already-resolved input values and the
    /// evaluator callback that performs the actual scalar arithmetic.
    ///
    /// A placeholder yields zero here; in correct usage its value is seeded
    /// into the cache by the evaluation feed before this is ever consulted.
    pub fn forward<F: Fn(ScalarOp) -> Val>(
        &self,
        current_values: &Vec<Option<Val>>,
        arith: &F,
    ) -> (v: Val)
        requires
            forall|p: ScalarOp| call_requires(*arith, (p,)),
            forall|k: int| 0 <= k < inputs_of(*self).len() ==> {
                let j = #[trigger] inputs_of(*self)[k] as int;
                0 <= j < current_values@.len() && current_values@[j] is Some
            },
        ensures
            forward_ok(*arith, *self, current_values@, v),
    {
        match self {
            Operation::Constant(c) => *c,
            Operation::Sum(a, b) => {
                assert(inputs_of(*self)[0] == *a && inputs_of(*self)[1] == *b);
                let va = current_values[*a].unwrap();
                let vb = current_values[*b].unwrap();
                arith(ScalarOp::Add(va, vb))
            },
            Operation::Multiply(a, b) => {
                assert(inputs_of(*self)[0] == *a && inputs_of(*self)[1] == *b);
                let va = current_values[*a].unwrap();
                let vb = current_values[*b].unwrap();
                arith(ScalarOp::Mul(va, vb))
            },
            Operation::Negative(a) => {
                assert(inputs_of(*self)[0] == *a);
                let va = current_values[*a].unwrap();
                arith(ScalarOp::Neg(va))
            },
            Operation::Exponential(a) => {
                assert(inputs_of(*self)[0] == *a);
                let va = current_values[*a].unwrap();
                arith(ScalarOp::Exp(va))
            },
            Operation::Ln(a) => {
                assert(inputs_of(*self)[0] == *a);
                let va = current_values[*a].unwrap();
                arith(ScalarOp::Ln(va))
            },
            Operation::Placeholder => ZERO_BITS,
        }
    }
}

} // verus!
