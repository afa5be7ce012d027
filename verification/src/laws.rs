use vstd::prelude::*;

use crate::graph::deriv_pass;
use crate::graph::seed_outputs;
use crate::operation::Idx;
use crate::operation::Operation;
use crate::operation::inputs_of;
use crate::operation::Val;
use crate::operation::one_op;
use crate::operation::ops_wf;
use crate::session::seed_cache;

verus! {

/// Constructing the same primitive twice yields two distinct identifiers
/// holding identical operations: appending an operation to the arena twice
/// issues the arena's two successive lengths as identifiers, and both slots
/// store the same operation.
pub proof fn lemma_duplicate_primitive(ops: Seq<Operation>, op: Operation)
    ensures
        ({
            let first = ops.len() as int;
            let second = ops.push(op).len() as int;
            let twice = ops.push(op).push(op);
            &&& first != second
            &&& twice[first] == twice[second]
        }),
{
}

/// After a reset nothing stale can be reused: seeding an all-clear cache
/// fills a slot only when the feed names that identifier, so a subsequent
/// evaluation computes every other node afresh from the new feed values.
pub proof fn lemma_cleared_cache_holds_only_feed(c: Seq<Option<Val>>, feed: Seq<(Idx, Val)>)
    requires
        forall|i: int| 0 <= i < c.len() ==> c[i] is None,
        forall|k: int| 0 <= k < feed.len() ==> ((#[trigger] feed[k]).0 as int) < c.len(),
    ensures
        seed_cache(c, feed).len() == c.len(),
        forall|i: int|
            0 <= i < c.len() && seed_cache(c, feed)[i] is Some ==> exists|k: int|
                0 <= k < feed.len() && (#[trigger] feed[k]).0 == i,
    decreases feed.len(),
{
    if feed.len() == 0 {
    } else {
        lemma_cleared_cache_holds_only_feed(c, feed.drop_last());
        assert forall|i: int|
            0 <= i < c.len() && seed_cache(c, feed)[i] is Some implies exists|k: int|
            0 <= k < feed.len() && (#[trigger] feed[k]).0 == i by {
            let last = feed.last();
            if last.0 as int == i {
                assert(feed[feed.len() - 1].0 == i);
            } else {
                assert(seed_cache(c, feed.drop_last())[i] is Some);
                let k = choose|k: int|
                    0 <= k < feed.drop_last().len() && (#[trigger] feed.drop_last()[k]).0 == i;
                assert(feed[k].0 == i);
            }
        }
    }
}

/// Multi-consumer accumulation: when a node `m` consumes the leaf `a` twice
/// (squaring, composed as `Multiply(a, a)`), the reverse pass over the graph
/// of `m` leaves in `a`'s derivative slot a Sum node over the two chain-rule
/// contributions — each a Multiply of the unit seed with `a` — rather than a
/// single contribution.
pub proof fn lemma_square_accumulates(ops: Seq<Operation>, a: Idx, m: Idx)
    requires
        ops_wf(ops),
        a < m,
        m < ops.len(),
        ops[m as int] == Operation::Multiply(a, a),
        inputs_of(ops[a as int]).len() == 0,
        ops.len() + 4 <= usize::MAX,
    ensures
        ({
            let seeded = seed_outputs(ops, Seq::new(ops.len(), |i: int| None::<Idx>), seq![m]);
            let passed = deriv_pass(seeded.0, seeded.1, seq![a, m]);
            let base = ops.len() as int;
            &&& passed.1[a as int] == Some((base + 3) as Idx)
            &&& passed.0[base + 3] == Operation::Sum((base + 2) as Idx, (base + 1) as Idx)
            &&& passed.0[base + 1] == Operation::Multiply(base as Idx, a)
            &&& passed.0[base + 2] == Operation::Multiply(base as Idx, a)
            &&& passed.0[base] == one_op()
        }),
{
    let base = ops.len() as int;
    let init = Seq::new(ops.len(), |i: int| None::<Idx>);
    let souts = seq![m];
    assert(souts.drop_last() =~= Seq::<Idx>::empty());
    assert(seed_outputs(ops, init, souts.drop_last()) == (ops, init));
    let seeded = seed_outputs(ops, init, souts);
    assert(seeded.0 == ops.push(one_op()));
    assert(seeded.1 == init.update(m as int, Some(base as Idx)));

    let order = seq![a, m];
    assert(order.drop_first() =~= seq![m]);
    assert(seq![m].drop_first() =~= Seq::<Idx>::empty());
    assert(deriv_pass(seeded.0, seeded.1, Seq::<Idx>::empty()) == seeded);

    // Visit of m: its operation multiplies a by a, so two contributions to a.
    let step_m = crate::graph::deriv_step(seeded.0, seeded.1, m);
    assert(seeded.1[m as int] == Some(base as Idx));
    let op_m = seeded.0[m as int];
    assert(op_m == Operation::Multiply(a, a));
    let base1 = seeded.0.len() as Idx;
    assert(base1 == base + 1);
    let lp = crate::operation::local_partials(op_m, base1)->0;
    assert(lp.0 =~= Seq::<Operation>::empty());
    assert(lp.1 =~= seq![(a, a), (a, a)]);
    let dc = crate::node::deriv_contribs(op_m, (base) as Idx, base1)->0;
    assert(dc.0 =~= seq![
        Operation::Multiply(base as Idx, a),
        Operation::Multiply(base as Idx, a),
    ]);
    assert(dc.1 =~= seq![(a, (base + 1) as Idx), (a, (base + 2) as Idx)]);

    let ops_mid = seeded.0 + dc.0;
    assert(ops_mid.len() == base + 3);
    let acc = crate::graph::accumulate(ops_mid, seeded.1, dc.1);
    assert(dc.1.drop_last() =~= seq![(a, (base + 1) as Idx)]);
    assert(seq![(a, (base + 1) as Idx)].drop_last() =~= Seq::<(Idx, Idx)>::empty());
    let acc1 = crate::graph::accumulate(ops_mid, seeded.1, seq![(a, (base + 1) as Idx)]);
    assert(seeded.1[a as int] is None);
    assert(crate::graph::accumulate(ops_mid, seeded.1, Seq::<(Idx, Idx)>::empty()) == (
        ops_mid,
        seeded.1,
    ));
    assert(seq![(a, (base + 1) as Idx)].last() == (a, (base + 1) as Idx));
    assert(acc1 == (ops_mid, seeded.1.update(a as int, Some((base + 1) as Idx))));
    assert(acc1.1[a as int] == Some((base + 1) as Idx));
    assert(acc.0 == ops_mid.push(Operation::Sum((base + 2) as Idx, (base + 1) as Idx)));
    assert(acc.1 == acc1.1.update(a as int, Some((base + 3) as Idx)));
    assert(step_m == acc);

    // Visit of a: a leaf, so the pass leaves its accumulated sum in place.
    let passed = deriv_pass(seeded.0, seeded.1, order);
    assert(deriv_pass(seeded.0, seeded.1, seq![m]) == step_m);
    assert(passed == crate::graph::deriv_step(step_m.0, step_m.1, a));
    assert(acc.1[a as int] == Some((base + 3) as Idx));
    assert(step_m.0[a as int] == ops[a as int]) by {
        assert(ops_mid[a as int] == ops[a as int]);
    }
    assert(crate::operation::local_partials(ops[a as int], step_m.0.len() as Idx) is None);
    assert(passed.1[a as int] == Some((base + 3) as Idx));
    assert(passed.0[base + 3] == Operation::Sum((base + 2) as Idx, (base + 1) as Idx));
    assert(passed.0[base + 1] == Operation::Multiply(base as Idx, a));
    assert(passed.0[base + 2] == Operation::Multiply(base as Idx, a));
    assert(passed.0[base] == one_op());
}

} // verus!
